//! Target profiles and the template-driven code generator.
//!
//! A profile is a named table of instruction-text templates, one ordered
//! list of lines per token kind, plus setup and teardown text and the
//! parameters needed to drive an external assembler and linker.  The code
//! generator maps each token to its template with the magnitude (or loop
//! id) substituted for the `{}` placeholder, and brackets the whole program
//! with the setup and teardown blocks.  Loading profile records from disk
//! and selecting one by host operating system are jobs for the surrounding
//! program; here the loaded profiles are an explicit value passed in.

use vstd::prelude::*;

use crate::lex::Token;
use crate::strutil::{
    join_lines, replace_placeholder, spec_decimal, spec_join, spec_subst, str_eq, usize_to_string,
};

verus! {

/// One target profile: instruction templates per token kind, setup and
/// teardown text, and the toolchain invocation parameters.
#[derive(Debug)]
pub struct Profile {
    pub name: String,
    pub setup: Vec<String>,
    pub teardown: Vec<String>,
    pub ptradd: Vec<String>,
    pub ptrsub: Vec<String>,
    pub add: Vec<String>,
    pub sub: Vec<String>,
    pub loopstart: Vec<String>,
    pub loopend: Vec<String>,
    pub putchar: Vec<String>,
    pub getchar: Vec<String>,
    pub nasm_args: Vec<String>,
    pub linker: String,
    pub linker_args: Vec<String>,
}

/// The set of loaded profiles, built once at program start and passed by
/// reference wherever a profile is looked up.
pub struct ProfileStore {
    profiles: Vec<Profile>,
}

impl View for ProfileStore {
    type V = Seq<Profile>;

    closed spec fn view(&self) -> Seq<Profile> {
        self.profiles@
    }
}

impl ProfileStore {
    /// Wrap an already-loaded list of profiles.
    pub fn new(profiles: Vec<Profile>) -> (r: Self)
        ensures
            r@ == profiles@,
    {
        ProfileStore { profiles }
    }
}

/// The instruction text a profile emits for one token: the template lines
/// of the token's kind joined with newlines, with the magnitude (or loop
/// id) substituted for every `{}` placeholder; the two I/O kinds use their
/// template verbatim.
pub open spec fn spec_get_asm(p: Profile, tok: Token) -> Seq<char> {
    match tok {
        Token::PtrAdd(n) => spec_subst(spec_join(p.ptradd.deep_view()), spec_decimal(n as nat)),
        Token::PtrSub(n) => spec_subst(spec_join(p.ptrsub.deep_view()), spec_decimal(n as nat)),
        Token::Add(n) => spec_subst(spec_join(p.add.deep_view()), spec_decimal(n as nat)),
        Token::Sub(n) => spec_subst(spec_join(p.sub.deep_view()), spec_decimal(n as nat)),
        Token::LoopStart(n) => spec_subst(
            spec_join(p.loopstart.deep_view()),
            spec_decimal(n as nat),
        ),
        Token::LoopEnd(n) => spec_subst(spec_join(p.loopend.deep_view()), spec_decimal(n as nat)),
        Token::PutChar => spec_join(p.putchar.deep_view()),
        Token::GetChar => spec_join(p.getchar.deep_view()),
    }
}

/// The first profile of the list whose name is `name`, if any.
pub open spec fn spec_find_profile(ps: Seq<Profile>, name: Seq<char>) -> Option<Profile>
    decreases ps.len(),
{
    if ps.len() == 0 {
        None
    } else if ps[0].name@ == name {
        Some(ps[0])
    } else {
        spec_find_profile(ps.skip(1), name)
    }
}

/// The name of the profile used when none is requested, keyed on the host
/// operating system's name.
pub open spec fn spec_default_name(os: Seq<char>) -> Seq<char> {
    if os == "macos"@ {
        "macos_64"@
    } else {
        "elf_32"@
    }
}

impl Profile {
    /// The profile's setup text block.
    pub fn get_setup_asm(&self) -> (r: String)
        ensures
            r@ == spec_join(self.setup.deep_view()),
    {
        join_lines(&self.setup)
    }

    /// The profile's teardown text block.
    pub fn get_teardown_asm(&self) -> (r: String)
        ensures
            r@ == spec_join(self.teardown.deep_view()),
    {
        join_lines(&self.teardown)
    }

    /// The instruction text for one token.
    pub fn get_asm(&self, tok: Token) -> (r: String)
        ensures
            r@ == spec_get_asm(*self, tok),
    {
        match tok {
            Token::PtrAdd(n) => {
                let t = join_lines(&self.ptradd);
                let v = usize_to_string(n);
                replace_placeholder(t.as_str(), v.as_str())
            },
            Token::PtrSub(n) => {
                let t = join_lines(&self.ptrsub);
                let v = usize_to_string(n);
                replace_placeholder(t.as_str(), v.as_str())
            },
            Token::Add(n) => {
                let t = join_lines(&self.add);
                let v = usize_to_string(n);
                replace_placeholder(t.as_str(), v.as_str())
            },
            Token::Sub(n) => {
                let t = join_lines(&self.sub);
                let v = usize_to_string(n);
                replace_placeholder(t.as_str(), v.as_str())
            },
            Token::LoopStart(n) => {
                let t = join_lines(&self.loopstart);
                let v = usize_to_string(n);
                replace_placeholder(t.as_str(), v.as_str())
            },
            Token::LoopEnd(n) => {
                let t = join_lines(&self.loopend);
                let v = usize_to_string(n);
                replace_placeholder(t.as_str(), v.as_str())
            },
            Token::PutChar => join_lines(&self.putchar),
            Token::GetChar => join_lines(&self.getchar),
        }
    }

    /// Look a profile up by name: the first loaded profile so named.
    pub fn get_by_string<'a>(store: &'a ProfileStore, profile: &str) -> (r: Option<&'a Profile>)
        ensures
            match r {
                Some(p) => spec_find_profile(store@, profile@) == Some(*p),
                None => spec_find_profile(store@, profile@) is None,
            },
    {
        let all = Profile::get_all_profiles(store);
        let mut i: usize = 0;
        proof {
            assert(store@.skip(0) =~= store@);
        }
        while i < all.len()
            invariant
                i <= all@.len(),
                all@ == store@,
                spec_find_profile(store@, profile@) == spec_find_profile(
                    store@.skip(i as int),
                    profile@,
                ),
            decreases all@.len() - i,
        {
            proof {
                assert(store@.skip(i as int)[0] == store@[i as int]);
                assert(store@.skip(i as int).skip(1) =~= store@.skip(i as int + 1));
            }
            if str_eq(all[i].name.as_str(), profile) {
                return Some(&all[i]);
            }
            i = i + 1;
        }
        proof {
            assert(store@.skip(store@.len() as int) =~= Seq::<Profile>::empty());
        }
        None
    }

    /// The default profile for the given host operating system name:
    /// the 64-bit profile on macOS, the 32-bit ELF profile elsewhere.
    pub fn default<'a>(store: &'a ProfileStore, os: &str) -> (r: Option<&'a Profile>)
        ensures
            match r {
                Some(p) => spec_find_profile(store@, spec_default_name(os@)) == Some(*p),
                None => spec_find_profile(store@, spec_default_name(os@)) is None,
            },
    {
        let name: &str = if str_eq(os, "macos") {
            "macos_64"
        } else {
            "elf_32"
        };
        Profile::get_by_string(store, name)
    }

    /// All loaded profiles, in load order.
    pub fn get_all_profiles(store: &ProfileStore) -> (r: &Vec<Profile>)
        ensures
            r@ == store@,
    {
        &store.profiles
    }
}

/// The assembly lines for a token sequence, one text block per token.
pub open spec fn spec_asm_lines(p: Profile, ts: Seq<Token>) -> Seq<Seq<char>>
    decreases ts.len(),
{
    if ts.len() == 0 {
        Seq::empty()
    } else {
        seq![spec_get_asm(p, ts[0])] + spec_asm_lines(p, ts.skip(1))
    }
}

/// Appending a token appends its text block.
proof fn lemma_asm_lines_push(p: Profile, ts: Seq<Token>, t: Token)
    ensures
        spec_asm_lines(p, ts.push(t)) == spec_asm_lines(p, ts).push(spec_get_asm(p, t)),
    decreases ts.len(),
{
    let q = ts.push(t);
    if ts.len() == 0 {
        assert(q.len() == 1 && q[0] == t);
        assert(q.skip(1) =~= Seq::<Token>::empty());
        assert(spec_asm_lines(p, Seq::<Token>::empty()) == Seq::<Seq<char>>::empty());
        assert(spec_asm_lines(p, q) == seq![spec_get_asm(p, t)] + Seq::<Seq<char>>::empty());
        assert(seq![spec_get_asm(p, t)] + Seq::<Seq<char>>::empty() =~= spec_asm_lines(
            p,
            ts,
        ).push(spec_get_asm(p, t)));
    } else {
        assert(q[0] == ts[0]);
        assert(q.skip(1) =~= ts.skip(1).push(t));
        lemma_asm_lines_push(p, ts.skip(1), t);
        assert(seq![spec_get_asm(p, ts[0])] + spec_asm_lines(p, ts.skip(1)).push(
            spec_get_asm(p, t),
        ) =~= (seq![spec_get_asm(p, ts[0])] + spec_asm_lines(p, ts.skip(1))).push(
            spec_get_asm(p, t),
        ));
    }
}

/// Everything the generator emits, in order: the setup block, one block per
/// token, the teardown block.
pub open spec fn spec_generate_asm(p: Profile, ts: Seq<Token>) -> Seq<Seq<char>> {
    seq![spec_join(p.setup.deep_view())] + spec_asm_lines(p, ts) + seq![
        spec_join(p.teardown.deep_view()),
    ]
}

/// Generate the assembly text for a token sequence: the profile's setup
/// block, then one text block per token in order, then the teardown block.
pub fn generate_asm(profile: &Profile, tokens: Vec<Token>) -> (r: Vec<String>)
    ensures
        r.deep_view() == spec_generate_asm(*profile, tokens@),
{
    let mut lines: Vec<String> = Vec::new();
    lines.push(profile.get_setup_asm());
    proof {
        assert(lines.deep_view() =~= seq![spec_join(profile.setup.deep_view())]);
        assert(spec_asm_lines(*profile, tokens@.take(0)) =~= Seq::<Seq<char>>::empty());
    }
    let mut i: usize = 0;
    while i < tokens.len()
        invariant
            i <= tokens@.len(),
            lines.deep_view() == seq![spec_join(profile.setup.deep_view())] + spec_asm_lines(
                *profile,
                tokens@.take(i as int),
            ),
        decreases tokens@.len() - i,
    {
        let ghost prev = lines.deep_view();
        let block = profile.get_asm(tokens[i]);
        let ghost blockv = block@;
        lines.push(block);
        proof {
            assert(lines.deep_view() =~= prev.push(blockv));
            assert(tokens@.take(i as int + 1) =~= tokens@.take(i as int).push(tokens@[i as int]));
            lemma_asm_lines_push(*profile, tokens@.take(i as int), tokens@[i as int]);
            assert(prev.push(blockv) =~= seq![spec_join(profile.setup.deep_view())]
                + spec_asm_lines(*profile, tokens@.take(i as int + 1)));
        }
        i = i + 1;
    }
    let ghost prev = lines.deep_view();
    lines.push(profile.get_teardown_asm());
    proof {
        assert(tokens@.take(tokens@.len() as int) =~= tokens@);
        assert(lines.deep_view() =~= prev.push(spec_join(profile.teardown.deep_view())));
        assert(prev.push(spec_join(profile.teardown.deep_view())) =~= spec_generate_asm(
            *profile,
            tokens@,
        ));
    }
    lines
}

} // verus!
