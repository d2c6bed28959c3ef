use kairoi::wire::{parse, read_argument, render_argument, Error};

#[test]
fn tokens_read_from_request_lines() {
    // Simple and quoted tokens, with surrounding spaces consumed.
    assert_eq!(read_argument("A VERSION\n", 0), Ok((String::from("A"), 2)));
    assert_eq!(read_argument("A VERSION\n", 2), Ok((String::from("VERSION"), 9)));
    assert_eq!(read_argument("    Id   VERSION toto\n", 0), Ok((String::from("Id"), 9)));
    assert_eq!(read_argument("\"123\" \"UNSET\"\n", 0), Ok((String::from("123"), 6)));
    assert_eq!(
        read_argument(" \"\\\"\" \"\\\"\"   \n", 0),
        Ok((String::from("\""), 6)),
    );
    assert_eq!(
        read_argument("\"I can\\\" con$tain\\\\every.thing\\\"\"  \n", 0),
        Ok((String::from("I can\" con$tain\\every.thing\""), 35)),
    );
    // A newline cannot start a token; a cut-off input is incomplete.
    assert_eq!(read_argument("\n", 0), Err(Error::Error));
    assert_eq!(read_argument("VER", 0), Err(Error::Incomplete));
    assert_eq!(read_argument(" \"\\", 0), Err(Error::Incomplete));
    assert_eq!(read_argument("token", 0), Err(Error::Incomplete));
}

#[test]
fn rendered_arguments_read_back_unchanged() {
    // parse(render(s)) == s, for contents with quotes, backslashes, spaces
    // and newlines.
    for content in [
        "",
        "plain",
        "with space",
        "line\nbreak",
        "quote\"inside",
        "back\\slash",
        "\\\"both\\\"",
        "unicode \u{e9}\u{1F680}",
    ] {
        let rendered = render_argument(content);
        let line = format!("{}\n", rendered);
        let (token, next) = read_argument(&line, 0).unwrap();
        assert_eq!(token, content);
        assert_eq!(next, rendered.chars().count());
    }
}

#[test]
fn parser_test_parse() {
    // Test basic valid buffers.
    assert_eq!(
        parse("A VERSION\n"),
        Ok(("", (String::from("A"), vec![String::from("VERSION")]))),
    );
    assert_eq!(
        parse("    Id   VERSION toto   32t\\ata titi 111   \n"),
        Ok(("", (String::from("Id"), vec![
            String::from("VERSION"),
            String::from("toto"),
            String::from("32t\\ata"),
            String::from("titi"),
            String::from("111"),
        ]))),
    );
    assert_eq!(
        parse("\"123\" \"UNSET\"\n"),
        Ok(("", (String::from("123"), vec![String::from("UNSET")]))),
    );
    assert_eq!(
        parse(" \"\\\"\" \"\\\"\"   \n"),
        Ok(("", (String::from("\""), vec![String::from("\"")]))),
    );
    assert_eq!(
        parse("   *$a12  UNSET  \"\n\"  \"I can\\\" con$tain\\\\every.thing\\\"\"  \n"),
        Ok(("", (String::from("*$a12"), vec![
            String::from("UNSET"),
            String::from("\n"),
            String::from(r#"I can" con$tain\every.thing""#),
        ]))),
    );
    assert_eq!(
        parse("A SET app.domain.example_job.0 \"2020-05-26 22:26:18\"\n"),
        Ok(("", (String::from("A"), vec![
            String::from("SET"),
            String::from("app.domain.example_job.0"),
            String::from("2020-05-26 22:26:18"),
        ]))),
    );
    // Test invalid buffers.
    assert_eq!(parse("\n"), Err(("\n", Error::Error)));
    assert_eq!(parse("A\n"), Err(("A\n", Error::Error)));
    // Test incomplete buffers.
    assert_eq!(parse("VER"), Err(("VER", Error::Incomplete)));
    assert_eq!(parse(" \"\\"), Err((" \"\\", Error::Incomplete)));
    // Test valid buffers with more data.
    assert_eq!(
        parse("A VERSION\ntoto\nhey"),
        Ok(("toto\nhey", (String::from("A"), vec![String::from("VERSION")]))),
    );
    assert_eq!(
        parse("  XYZ    UNSET  \"\n\"  \"I can\\\" con$tain\\\\every.thing\\\"\"  \n\n\nHEYHEY \"next"),
        Ok(("\n\nHEYHEY \"next", (String::from("XYZ"), vec![
            String::from("UNSET"),
            String::from("\n"),
            String::from(r#"I can" con$tain\every.thing""#),
        ]))),
    );
}
