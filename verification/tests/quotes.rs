use quotes::Quote;

#[test]
fn test_parse() {
    let input = "If you set your goals ridiculously high and it's a failure, you will fail above everyone else's success. -James Cameron

Life is what happens when you're busy making other plans. -John Lennon

“Real leaders must be ready to sacrifice all for the freedom of their people.” - Nelson Mandela

“A fundamental concern for others in our individual and community lives would go a long way in making the world the better place we so passionately dreamt of.” - Nelson Mandela

He didn’t fall? Inconceivable! - Vizzini
You keep using that word. I do not think it means what you think it means - Inigo Montoya";
    let quote_list = Quote::parse_file(input, false);
    assert_eq!(quote_list[0], Quote::new("If you set your goals ridiculously high and it's a failure, you will fail above everyone else's success. -James Cameron", 1));
    assert_eq!(quote_list[4], Quote::new("He didn’t fall? Inconceivable! - Vizzini
You keep using that word. I do not think it means what you think it means - Inigo Montoya", 9));

    let input = "If you set your goals ridiculously high and it's a failure, you will fail above everyone else's success. -James Cameron
Life is what happens when you're busy making other plans. -John Lennon
“Real leaders must be ready to sacrifice all for the freedom of their people.” - Nelson Mandela
“A fundamental concern for others in our individual and community lives would go a long way in making the world the better place we so passionately dreamt of.” - Nelson Mandela
“He didn’t fall? Inconceivable!” - Vizzini “You keep using that word. I do not think it means what you think it means” - Inigo Montoya";
    let quote_list = Quote::parse_file(input, true);
    assert_eq!(quote_list[0], Quote::new("If you set your goals ridiculously high and it's a failure, you will fail above everyone else's success. -James Cameron", 1));
    assert_eq!(quote_list[4], Quote::new("“He didn’t fall? Inconceivable!” - Vizzini “You keep using that word. I do not think it means what you think it means” - Inigo Montoya", 5));
}

#[test]
fn end_to_end_example() {
    let input = "Life is what happens when you're busy making other plans. -John Lennon\n\n\"Real leaders must be ready to sacrifice all for the freedom of their people.\" - Nelson Mandela";
    let quote_list = Quote::parse_file(input, false);
    assert_eq!(quote_list.len(), 2);
    assert_eq!(quote_list[0].line_number, 1);
    assert_eq!(quote_list[0].dialogue.len(), 1);
    assert_eq!(
        quote_list[0].dialogue[0].text,
        "Life is what happens when you're busy making other plans."
    );
    assert_eq!(quote_list[0].dialogue[0].author, "John Lennon");
    assert_eq!(quote_list[1].line_number, 3);
    assert_eq!(quote_list[1].dialogue.len(), 1);
    assert_eq!(
        quote_list[1].dialogue[0].text,
        "Real leaders must be ready to sacrifice all for the freedom of their people."
    );
    assert_eq!(quote_list[1].dialogue[0].author, "Nelson Mandela");
}

#[test]
fn odd_token_truncation() {
    let q = Quote::new("one - two - three", 1);
    assert_eq!(q.dialogue.len(), 1);
    assert_eq!(q.dialogue[0].text, "one");
    assert_eq!(q.dialogue[0].author, "two");
}

#[test]
fn blank_run_length_equivalent() {
    let a = Quote::parse_file("a -x\n\nb -y", false);
    let b = Quote::parse_file("a -x\n\n\n\n\nb -y", false);
    assert_eq!(a.len(), 2);
    assert_eq!(b.len(), 2);
    assert_eq!(a[0], b[0]);
    assert_eq!(a[1].dialogue, b[1].dialogue);
}

#[test]
fn no_blank_lines_single_block() {
    let quote_list = Quote::parse_file("a -x\nb -y\nc -z", false);
    assert_eq!(quote_list.len(), 1);
    assert_eq!(quote_list[0].line_number, 1);
    assert_eq!(quote_list[0].dialogue.len(), 3);
}

#[test]
fn single_line_break_mode() {
    let quote_list = Quote::parse_file("a -x\nb -y", true);
    assert_eq!(quote_list.len(), 2);
    assert_eq!(quote_list[0].line_number, 1);
    assert_eq!(quote_list[1].line_number, 2);
}

#[test]
fn leading_blank_line_splits_first_run() {
    // A blank line before any text leaves the blank flag set until the
    // first emission, so the first two non-blank lines are separated.
    let quote_list = Quote::parse_file("\na -x\nb -y", false);
    assert_eq!(quote_list.len(), 2);
    assert_eq!(quote_list[0].line_number, 2);
    assert_eq!(quote_list[1].line_number, 3);
}

#[test]
fn trailing_blank_lines_flush_once() {
    let quote_list = Quote::parse_file("a -x\n\n", false);
    assert_eq!(quote_list.len(), 1);
    assert_eq!(quote_list[0].line_number, 1);
}

#[test]
fn empty_input_no_quotes() {
    assert_eq!(Quote::parse_file("", false).len(), 0);
}

#[test]
fn filter_author_case_insensitive() {
    let input = "\"Real leaders must be ready to sacrifice all.\" - Nelson Mandela\n\nLife happens. -John Lennon";
    let quote_list = Quote::parse_file(input, false);
    let by_author = Quote::search(quote_list, "mandela", true);
    assert_eq!(by_author.len(), 1);
    assert_eq!(by_author[0].dialogue[0].author, "Nelson Mandela");
}

#[test]
fn filter_text_case_insensitive() {
    let input = "\"Real leaders must be ready to sacrifice all.\" - Nelson Mandela\n\nLife happens. -John Lennon";
    let quote_list = Quote::parse_file(input, false);
    let by_text = Quote::search(quote_list, "LEADERS", false);
    assert_eq!(by_text.len(), 1);
    assert_eq!(by_text[0].dialogue[0].author, "Nelson Mandela");
}

#[test]
fn filter_keeps_order_and_drops_misses() {
    let input = "a -x\n\nkeep me -y\n\nkeep too -z";
    let quote_list = Quote::parse_file(input, false);
    let kept = Quote::search(quote_list, "keep", false);
    assert_eq!(kept.len(), 2);
    assert_eq!(kept[0].dialogue[0].author, "y");
    assert_eq!(kept[1].dialogue[0].author, "z");
}

#[test]
fn author_count_report() {
    let quote_list = Quote::parse_file("a -X\n\nb -Y\n\nc -X", false);
    let counts = Quote::author_counts(&quote_list);
    assert_eq!(counts, vec![("X".to_string(), 2), ("Y".to_string(), 1)]);
    assert_eq!(Quote::total_count(&counts), 3);
}

#[test]
fn same_author_twice_in_one_quote_counts_once() {
    let q = Quote::new("\"a\" - Z \"b\" - Z", 1);
    assert_eq!(q.dialogue.len(), 2);
    let counts = Quote::author_counts(&vec![q]);
    assert_eq!(counts, vec![("Z".to_string(), 1)]);
    assert_eq!(Quote::total_count(&counts), 1);
}

#[test]
fn report_sorted_by_author() {
    let quote_list = Quote::parse_file("q1 -bob\n\nq2 -alice", false);
    let counts = Quote::author_counts(&quote_list);
    assert_eq!(counts[0].0, "alice");
    assert_eq!(counts[1].0, "bob");
}

#[test]
fn render_format() {
    let q = Quote::new("hello -world", 1);
    assert_eq!(q.render(), "\"hello\" - world\n");
}

#[test]
fn render_round_trip() {
    let q = Quote::new(
        "He didn't fall? Inconceivable! - Vizzini\nYou keep using that word - Inigo Montoya",
        9,
    );
    assert_eq!(q.dialogue.len(), 2);
    let rendered = q.render();
    let q2 = Quote::new(&rendered, 9);
    assert_eq!(q, q2);
}

#[test]
fn serialize_blank_line_between_quotes() {
    let quote_list = Quote::parse_file("a -x\n\nb -y", false);
    let lines = Quote::serialize_for_write(&quote_list);
    assert_eq!(
        lines,
        vec!["\"a\" - x\n\n".to_string(), "\"b\" - y\n\n".to_string()]
    );
}

#[test]
fn crlf_line_endings() {
    let quote_list = Quote::parse_file("a -x\r\n\r\nb -y", false);
    assert_eq!(quote_list.len(), 2);
    assert_eq!(quote_list[1].line_number, 3);
    assert_eq!(quote_list[1].dialogue[0].text, "b");
}
