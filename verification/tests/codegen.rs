use bfc::lex::{lex, Token};
use bfc::names::gen_file_names;
use bfc::optimise::optimise_tokens;
use bfc::profile::{generate_asm, Profile, ProfileStore};

fn lines(items: &[&str]) -> Vec<String> {
    items.iter().map(|s| s.to_string()).collect()
}

fn tiny_profile(name: &str) -> Profile {
    Profile {
        name: name.to_string(),
        setup: lines(&["S"]),
        teardown: lines(&["T"]),
        ptradd: lines(&["PADD {}"]),
        ptrsub: lines(&["PSUB {}"]),
        add: lines(&["ADD {}"]),
        sub: lines(&["SUB {}"]),
        loopstart: lines(&["L{}S:"]),
        loopend: lines(&["jmp L{}S", "L{}E:"]),
        putchar: lines(&["OUT"]),
        getchar: lines(&["IN"]),
        nasm_args: lines(&["-felf32"]),
        linker: "ld".to_string(),
        linker_args: Vec::new(),
    }
}

#[test]
fn generator_brackets_with_setup_and_teardown() {
    let p = tiny_profile("t");
    let text = generate_asm(&p, vec![Token::Add(5)]);
    assert_eq!(text, vec!["S".to_string(), "ADD 5".to_string(), "T".to_string()]);
}

#[test]
fn generator_on_empty_program() {
    let p = tiny_profile("t");
    let text = generate_asm(&p, Vec::new());
    assert_eq!(text, vec!["S".to_string(), "T".to_string()]);
}

#[test]
fn generator_keeps_token_order() {
    let p = tiny_profile("t");
    let tokens = optimise_tokens(lex("++>.").expect("lexes"));
    let text = generate_asm(&p, tokens);
    assert_eq!(
        text,
        vec![
            "S".to_string(),
            "ADD 2".to_string(),
            "PADD 1".to_string(),
            "OUT".to_string(),
            "T".to_string(),
        ]
    );
}

#[test]
fn templates_substitute_every_placeholder() {
    let p = tiny_profile("t");
    // The loop-end template uses the id twice, over two lines.
    let text = p.get_asm(Token::LoopEnd(12));
    assert_eq!(text, "jmp L12S\nL12E:".to_string());
}

#[test]
fn loop_templates_receive_the_same_id_on_both_ends() {
    let p = tiny_profile("t");
    let tokens = lex("[-]").expect("lexes");
    let text = generate_asm(&p, tokens);
    assert_eq!(
        text,
        vec![
            "S".to_string(),
            "L0S:".to_string(),
            "SUB 1".to_string(),
            "jmp L0S\nL0E:".to_string(),
            "T".to_string(),
        ]
    );
}

#[test]
fn setup_and_teardown_join_lines_with_newlines() {
    let mut p = tiny_profile("t");
    p.setup = lines(&["one", "two", "three"]);
    p.teardown = Vec::new();
    assert_eq!(p.get_setup_asm(), "one\ntwo\nthree".to_string());
    assert_eq!(p.get_teardown_asm(), String::new());
}

#[test]
fn magnitudes_format_in_decimal() {
    let p = tiny_profile("t");
    assert_eq!(p.get_asm(Token::Add(0)), "ADD 0".to_string());
    assert_eq!(p.get_asm(Token::Add(10)), "ADD 10".to_string());
    assert_eq!(p.get_asm(Token::PtrSub(10_320)), "PSUB 10320".to_string());
}

#[test]
fn profiles_are_found_by_name() {
    let store = ProfileStore::new(vec![tiny_profile("elf_32"), tiny_profile("macos_64")]);
    assert_eq!(
        Profile::get_by_string(&store, "macos_64").map(|p| p.name.as_str()),
        Some("macos_64")
    );
    assert_eq!(
        Profile::get_by_string(&store, "elf_32").map(|p| p.name.as_str()),
        Some("elf_32")
    );
    assert!(Profile::get_by_string(&store, "missing").is_none());
}

#[test]
fn default_profile_depends_on_the_host_os_name() {
    let store = ProfileStore::new(vec![tiny_profile("elf_32"), tiny_profile("macos_64")]);
    assert_eq!(
        Profile::default(&store, "macos").map(|p| p.name.as_str()),
        Some("macos_64")
    );
    assert_eq!(
        Profile::default(&store, "linux").map(|p| p.name.as_str()),
        Some("elf_32")
    );
}

#[test]
fn all_profiles_come_back_in_load_order() {
    let store = ProfileStore::new(vec![tiny_profile("a"), tiny_profile("b")]);
    let all = Profile::get_all_profiles(&store);
    assert_eq!(all.len(), 2);
    assert_eq!(all[0].name, "a".to_string());
    assert_eq!(all[1].name, "b".to_string());
}

#[test]
fn file_names_follow_the_flags() {
    let infile = "prog.bf".to_string();

    let (inf, asmf, outf) = gen_file_names(&infile, &None, false);
    assert_eq!(inf, "prog.bf".to_string());
    assert_eq!(asmf, "prog.s".to_string());
    assert_eq!(outf, "prog".to_string());

    let (_, asmf, outf) = gen_file_names(&infile, &Some("custom".to_string()), false);
    assert_eq!(asmf, "prog.s".to_string());
    assert_eq!(outf, "custom".to_string());

    let (_, asmf, outf) = gen_file_names(&infile, &Some("custom.s".to_string()), true);
    assert_eq!(asmf, "custom.s".to_string());
    assert_eq!(outf, "custom.s".to_string());

    let (_, asmf, _) = gen_file_names(&"noext".to_string(), &None, true);
    assert_eq!(asmf, "noext.s".to_string());
}
