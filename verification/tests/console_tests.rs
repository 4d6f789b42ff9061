use ryzc::console::console::{
    char_is_whitespace, edit_content, edit_line, split_whitespace, split_words, Command, Commands, ContentEdit, LineEdit,
};

fn chars(s: &str) -> Vec<char> {
    s.chars().collect()
}

#[test]
fn lines_split_on_whitespace() {
    assert_eq!(split_whitespace(&chars("  readfile   poem ")), vec![String::from("readfile"), String::from("poem")]);
    assert_eq!(split_whitespace(&chars("ls")), vec![String::from("ls")]);
    assert!(split_whitespace(&chars(" \t ")).is_empty());
    assert!(split_whitespace(&Vec::new()).is_empty());
    assert_eq!(split_whitespace(&chars("a\u{3000}b")), vec![String::from("a"), String::from("b")]);
}

#[test]
fn line_editing_keys() {
    let mut line = Vec::new();
    assert_eq!(edit_line(&mut line, '\u{8}'), LineEdit::Ignored);
    assert_eq!(edit_line(&mut line, 'l'), LineEdit::Appended);
    assert_eq!(edit_line(&mut line, 'x'), LineEdit::Appended);
    assert_eq!(edit_line(&mut line, '\u{8}'), LineEdit::Erased);
    assert_eq!(edit_line(&mut line, 's'), LineEdit::Appended);
    assert_eq!(edit_line(&mut line, '\n'), LineEdit::Finished);
    assert_eq!(line, vec!['l', 's']);
}

#[test]
fn content_ends_with_two_returns() {
    let mut content = Vec::new();
    assert_eq!(edit_content(&mut content, '\u{8}'), ContentEdit::Erased);
    assert_eq!(edit_content(&mut content, 'a'), ContentEdit::Appended);
    assert_eq!(edit_content(&mut content, '\n'), ContentEdit::Appended);
    assert_eq!(edit_content(&mut content, 'b'), ContentEdit::Appended);
    assert_eq!(edit_content(&mut content, '\u{8}'), ContentEdit::Erased);
    assert_eq!(edit_content(&mut content, '\n'), ContentEdit::Finished);
    assert_eq!(content, vec!['a', '\n']);
}

#[test]
fn commands_are_found_by_name() {
    let mut table: Commands<u32> = Commands::new();
    assert!(table.getCommand("ls").is_none());
    table.add("ls", 1);
    table.add("help", 2);
    table.add("ls", 3);
    assert_eq!(table.getCommand("ls").map(|c| c.handler), Some(1));
    assert_eq!(table.getCommand("help").map(|c| c.name), Some("help"));
    assert!(table.getCommand("hel").is_none());
    assert!(table.getCommand("").is_none());
    let c = Command::new("x", 9u32);
    assert_eq!((c.name, c.handler), ("x", 9));
    assert_eq!(table.commands.len(), 3);
}

#[test]
fn words_split_at_flagged_characters() {
    let line = chars("a,bc,,d");
    let blank: Vec<bool> = line.iter().map(|c| *c == ',').collect();
    assert_eq!(split_words(&line, &blank), vec![String::from("a"), String::from("bc"), String::from("d")]);
    assert!(split_words(&chars(",,"), &vec![true, true]).is_empty());
    assert_eq!(split_words(&chars("xy"), &vec![false, false]), vec![String::from("xy")]);
}

#[test]
fn whitespace_matches_the_standard_library() {
    for u in 0u32..=0x10FFFF {
        if let Some(c) = char::from_u32(u) {
            assert_eq!(char_is_whitespace(c), c.is_whitespace(), "{:#x}", u);
        }
    }
    assert_eq!(split_whitespace(&chars("a b")), vec![String::from("a"), String::from("b")]);
}
