use glean::think::{strip_chunks, ThinkFilter};

fn run(chunks: &[&str]) -> String {
    let mut f = ThinkFilter::default();
    let mut out = String::new();
    for c in chunks {
        out.push_str(&f.feed(c));
    }
    out.push_str(&f.finish());
    out
}

#[test]
fn strips_whole_think_block() {
    assert_eq!(run(&["<think>盘算一下</think>河岸边的狐狸"]), "河岸边的狐狸");
}

#[test]
fn strips_block_split_across_chunks() {
    assert_eq!(run(&["<thi", "nk>盘算", "一下</thi", "nk>译文"]), "译文");
}

#[test]
fn keeps_plain_text_untouched() {
    assert_eq!(run(&["一只", "敏捷的狐狸"]), "一只敏捷的狐狸");
}

#[test]
fn keeps_text_before_and_after() {
    assert_eq!(run(&["前言<think>思考</think>后文"]), "前言后文");
}

#[test]
fn handles_thinking_variant() {
    assert_eq!(run(&["<thinking>x</thinking>y"]), "y");
}

#[test]
fn unterminated_think_is_dropped() {
    assert_eq!(run(&["<think>还没说完"]), "");
}

#[test]
fn lone_angle_bracket_is_not_swallowed() {
    assert_eq!(run(&["a < b"]), "a < b");
}

#[test]
fn multibyte_boundary_is_safe() {
    assert_eq!(run(&["译文：中文内容"]), "译文：中文内容");
}

#[test]
fn drops_blank_lines_after_think_block() {
    assert_eq!(run(&["<think>盘算</think>\n\n\n\n译文"]), "译文");
}

#[test]
fn drops_leading_whitespace_without_think() {
    assert_eq!(run(&["\n\n  译文"]), "译文");
}

#[test]
fn drops_trailing_whitespace() {
    assert_eq!(run(&["译文\n\n\n"]), "译文");
}

#[test]
fn keeps_paragraph_break_in_the_middle() {
    assert_eq!(run(&["第一段\n\n", "第二段"]), "第一段\n\n第二段");
}

#[test]
fn whitespace_only_stream_yields_nothing() {
    assert_eq!(run(&["  \n\n  "]), "");
}

#[test]
fn trailing_whitespace_across_chunk_boundary() {
    assert_eq!(run(&["译文\n", "\n\n"]), "译文");
}

#[test]
fn any_chunking_gives_the_whole_text_result() {
    let text = "  前言 <think>想一想</think>\n正文 <thinking>再想</thinking> 结尾\n";
    let whole = run(&[text]);
    assert_eq!(whole, "前言 \n正文  结尾");
    let chars: Vec<char> = text.chars().collect();
    for cut in 0..=chars.len() {
        let a: String = chars[..cut].iter().collect();
        let b: String = chars[cut..].iter().collect();
        assert_eq!(run(&[&a, &b]), whole, "cut at {cut}");
    }
    let pieces: Vec<String> = chars.iter().map(|c| c.to_string()).collect();
    let refs: Vec<&str> = pieces.iter().map(|s| s.as_str()).collect();
    assert_eq!(run(&refs), whole);
}

#[test]
fn mismatched_close_tag_still_closes() {
    assert_eq!(run(&["a<think>x</thinking>b"]), "ab");
}

#[test]
fn held_tag_prefix_is_released_at_the_end() {
    assert_eq!(run(&["答案 <thi"]), "答案 <thi");
    assert_eq!(run(&["  <thi"]), "<thi");
    assert_eq!(run(&["a \n", " <", "th  "]), "a \n <th");
    let mut f = ThinkFilter::default();
    let a = f.feed("a <");
    assert_eq!(a + &f.finish(), "a <");
}

#[test]
fn feed_returns_text_as_soon_as_it_is_decided() {
    let mut f = ThinkFilter::default();
    assert_eq!(f.feed("ab <th"), "ab");
    assert_eq!(f.feed("ink>hidden</think> cd "), "  cd");
    assert_eq!(f.feed("\n"), "");
    assert_eq!(f.finish(), "");
}

#[test]
fn filter_can_be_reused_after_finish() {
    let mut f = ThinkFilter::default();
    assert_eq!(f.feed("<think>x"), "");
    assert_eq!(f.finish(), "");
    assert_eq!(f.feed("y</think> z"), "z");
    assert_eq!(f.finish(), "");
}

#[test]
fn angle_brackets_that_form_no_tag_are_kept() {
    assert_eq!(run(&["  a < b", " <thin", "ker>  "]), "a < b <thinker>");
    assert_eq!(run(&["x <th<think>r</think>in"]), "x <thin");
    assert_eq!(run(&["前言<think>思考</think>后文 <thi"]), "前言后文 <thi");
    assert_eq!(run(&["前言<think>思考</think>后文<thi"]), "前言后文<thi");
}

#[test]
fn whole_reply_in_chunks_is_filtered_as_one() {
    let parts: Vec<String> = ["  <thi", "nk>x</think>\n答", "案 <th"].iter().map(|s| s.to_string()).collect();
    assert_eq!(strip_chunks(&parts), "答案 <th");
    assert_eq!(strip_chunks(&vec!["答案 <th".to_string()]), "答案 <th");
    assert_eq!(strip_chunks(&Vec::new()), "");
}
