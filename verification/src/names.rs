//! Deriving the output file names of a compilation run from the input file
//! name and the command-line choices.

use vstd::prelude::*;
use vstd::string::*;

use crate::strutil::{find_char, find_char_in};

verus! {

/// The input file name up to (not including) its first `.`, or the whole
/// name if it has none.
pub open spec fn spec_base(s: Seq<char>) -> Seq<char> {
    let i = find_char(s, '.');
    if i < 0 {
        s
    } else {
        s.take(i)
    }
}

/// The three file names of a run: the input file, the assembly file, and
/// the executable file.  An explicit output name is used for the assembly
/// file when assembly output was asked for, and for the executable
/// otherwise; the fallbacks are the input's base name with `.s` appended,
/// and the base name itself.
pub fn gen_file_names(infile: &String, outfile: &Option<String>, output_assembly: bool) -> (r: (
    String,
    String,
    String,
))
    ensures
        r.0@ == infile@,
        r.1@ == (if output_assembly {
            match *outfile {
                Some(o) => o@,
                None => spec_base(infile@) + ".s"@,
            }
        } else {
            spec_base(infile@) + ".s"@
        }),
        r.2@ == (match *outfile {
            Some(o) => o@,
            None => spec_base(infile@),
        }),
{
    let infile_copy = infile.clone();

    let base_end: usize = match find_char_in(infile.as_str(), '.') {
        Some(i) => i,
        None => infile.as_str().unicode_len(),
    };
    let base = infile.as_str().substring_char(0, base_end);
    proof {
        if find_char(infile@, '.') < 0 {
            assert(infile@.subrange(0, infile@.len() as int) =~= infile@);
        }
    }

    let asmfile = if output_assembly {
        match outfile {
            Some(o) => o.clone(),
            None => {
                let mut b = String::from_str(base);
                b.append(".s");
                b
            },
        }
    } else {
        let mut b = String::from_str(base);
        b.append(".s");
        b
    };

    let outname = match outfile {
        Some(o) => o.clone(),
        None => String::from_str(base),
    };

    (infile_copy, asmfile, outname)
}

} // verus!
