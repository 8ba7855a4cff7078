use genemichaels::driver::{check_result, skip, ProcessError};
use genemichaels::lists::{
    append_bracketed_list, append_bracketed_list_common, append_bracketed_list_curly, append_inline_list,
    append_inline_list_raw, new_sg_bracketed_list, new_sg_bracketed_list_common, InlineListSuffix,
    ListItem, Token,
};
use genemichaels::render::{measure, render};
use genemichaels::sg::{Alignment, LineColumn};
use genemichaels::state::{new_sg, Comment, FormatConfig, FormatError, FormatResult, MakeSegsState};

fn lc(line: usize, column: usize) -> LineColumn {
    LineColumn { line, column }
}

fn item(line: usize, column: usize, text: &str, punct: Option<usize>) -> ListItem<Token> {
    ListItem {
        value: Token { loc: lc(line, column), text: text.to_string() },
        punct: punct.map(|c| lc(line, c)),
    }
}

fn config(max_width: usize) -> FormatConfig {
    FormatConfig { max_width, ..FormatConfig::default() }
}

fn comment(line: usize, column: usize, text: &str) -> Comment {
    Comment { loc: lc(line, column), text: text.to_string() }
}

/// `fn f(a: i32, b: i32)` laid out at `max_width`.
fn two_params(max_width: usize) -> String {
    let mut st = MakeSegsState::new(config(max_width), vec![]);
    let items = vec![item(1, 5, "a: i32", Some(11)), item(1, 13, "b: i32", None)];
    let mut root = new_sg(&st);
    root.seg("fn f");
    let list = new_sg_bracketed_list(
        &mut st,
        &Alignment::new(),
        lc(1, 4),
        "(",
        false,
        &items,
        InlineListSuffix::<Token>::Punct,
        lc(1, 19),
        ")",
    );
    root.child(list);
    let r = root.build(&mut st);
    match st.finish(r) {
        Ok(res) => res.rendered,
        Err(_) => panic!("run failed"),
    }
}

#[test]
fn fits_inline() {
    assert_eq!(two_params(120), "fn f(a: i32, b: i32)");
}

#[test]
fn forced_split_by_width() {
    assert_eq!(two_params(10), "fn f(\n    a: i32,\n    b: i32,\n)");
}

#[test]
fn same_input_same_output() {
    let once = two_params(120);
    assert_eq!(two_params(120), once);
}

fn struct_literal(threshold: Option<usize>) -> String {
    let mut cfg = config(120);
    cfg.split_brace_threshold = threshold;
    let mut st = MakeSegsState::new(cfg, vec![]);
    let items = vec![item(1, 4, "a: 1", Some(8)), item(1, 10, "b: 2", None)];
    let mut root = new_sg(&st);
    root.seg("S");
    append_bracketed_list_curly(&mut st, &Alignment::new(), &mut root, lc(1, 1), &items, None::<Token>, lc(1, 15));
    let r = root.build(&mut st);
    match st.finish(r) {
        Ok(res) => res.rendered,
        Err(_) => panic!("run failed"),
    }
}

#[test]
fn forced_split_by_threshold() {
    assert_eq!(struct_literal(Some(2)), "S {\n    a: 1,\n    b: 2\n}");
    assert_eq!(struct_literal(Some(1)), "S {\n    a: 1,\n    b: 2\n}");
}

#[test]
fn curly_padding_when_under_threshold() {
    assert_eq!(struct_literal(Some(3)), "S { a: 1, b: 2 }");
    assert_eq!(struct_literal(None), "S { a: 1, b: 2 }");
}

#[test]
fn curly_extra_element() {
    assert_eq!(struct_update(None), "S { a: 1, ..d }");
    assert_eq!(struct_update(Some(1)), "S {\n    a: 1,\n    ..d\n}");
}

fn struct_update(threshold: Option<usize>) -> String {
    let mut cfg = config(120);
    cfg.split_brace_threshold = threshold;
    let mut st = MakeSegsState::new(cfg, vec![]);
    let items = vec![item(1, 4, "a: 1", Some(8))];
    let mut root = new_sg(&st);
    root.seg("S");
    let extra = Token { loc: lc(1, 10), text: "..d".to_string() };
    append_bracketed_list_curly(&mut st, &Alignment::new(), &mut root, lc(1, 1), &items, Some(extra), lc(1, 14));
    let r = root.build(&mut st);
    st.finish(r).ok().unwrap().rendered
}

#[test]
fn comment_forces_split() {
    let mut st = MakeSegsState::new(config(120), vec![comment(1, 8, "// note")]);
    let items = vec![item(1, 2, "a", Some(3)), item(1, 20, "b", None)];
    let list = new_sg_bracketed_list(
        &mut st,
        &Alignment::new(),
        lc(1, 1),
        "(",
        false,
        &items,
        InlineListSuffix::<Token>::Punct,
        lc(1, 21),
        ")",
    );
    let res = st.finish(list).ok().unwrap();
    assert_eq!(res.rendered, "(\n    a,\n    // note\n    b,\n)");
    assert_eq!(res.lost_comments.len(), 0);
}

#[test]
fn empty_list_punct_suffix() {
    let mut st = MakeSegsState::new(config(120), vec![]);
    let items: Vec<ListItem<Token>> = vec![];
    let list = new_sg_bracketed_list(
        &mut st,
        &Alignment::new(),
        lc(1, 1),
        "(",
        true,
        &items,
        InlineListSuffix::<Token>::Punct,
        lc(1, 2),
        ")",
    );
    let res = st.finish(list).ok().unwrap();
    assert_eq!(res.rendered, "()");
}

#[test]
fn common_list_has_no_trailing_separator() {
    let mut st = MakeSegsState::new(config(4), vec![]);
    let items = vec![item(1, 2, "x", Some(3)), item(1, 5, "y", None)];
    let list = new_sg_bracketed_list_common(&mut st, &Alignment::new(), lc(1, 1), "<", &items, lc(1, 6), ">");
    let res = st.finish(list).ok().unwrap();
    assert_eq!(res.rendered, "<\n    x,\n    y\n>");
}

#[test]
fn long_token_is_not_broken() {
    let mut st = MakeSegsState::new(config(3), vec![]);
    let items = vec![item(1, 2, "abcdefgh", None)];
    let list = new_sg_bracketed_list_common(&mut st, &Alignment::new(), lc(1, 1), "(", &items, lc(1, 10), ")");
    let res = st.finish(list).ok().unwrap();
    assert_eq!(res.rendered, "(\n    abcdefgh\n)");
}

#[test]
fn trailing_comment_is_lost_not_dropped() {
    let comments = vec![comment(1, 2, "// kept"), comment(9, 1, "// stray")];
    let mut st = MakeSegsState::new(config(120), comments);
    let items = vec![item(2, 1, "a", None)];
    let list = new_sg_bracketed_list_common(&mut st, &Alignment::new(), lc(1, 1), "(", &items, lc(3, 1), ")");
    let res: FormatResult = st.finish(list).ok().unwrap();
    assert!(res.rendered.contains("// kept"));
    assert!(!res.rendered.contains("// stray"));
    assert_eq!(res.lost_comments.len(), 1);
    assert_eq!(res.lost_comments[0].text, "// stray");
    match check_result("(a)", res) {
        Err(ProcessError::CommentsLost(lost)) => assert_eq!(lost.len(), 1),
        _ => panic!("lost comment accepted"),
    }
}

#[test]
fn lost_comment_fatal() {
    let mut cfg = config(120);
    cfg.comment_errors_fatal = true;
    let mut st = MakeSegsState::new(cfg, vec![comment(9, 1, "// stray")]);
    let items = vec![item(2, 1, "a", None)];
    let list = new_sg_bracketed_list_common(&mut st, &Alignment::new(), lc(1, 1), "(", &items, lc(3, 1), ")");
    match st.finish(list) {
        Err(FormatError::CommentsLost(lost)) => {
            assert_eq!(lost.len(), 1);
            assert_eq!(lost[0].loc, lc(9, 1));
        },
        Ok(_) => panic!("fatal lost comment accepted"),
    }
}

#[test]
fn alignment_indent() {
    let a = Alignment::new();
    let b = a.indent();
    assert_eq!(a.depth, 0);
    assert_eq!(b.depth, 4);
    assert_eq!(b.indent().depth, 8);
}

#[test]
fn default_config() {
    let c = FormatConfig::default();
    assert_eq!(c.max_width, 120);
    assert_eq!(c.split_brace_threshold, Some(1));
    assert!(!c.comment_errors_fatal);
}

#[test]
fn skip_marker_in_first_lines() {
    assert!(skip("// `nogenemichaels`\nfn main() {}\n"));
    assert!(skip("\n\n\n\nfn x() {} // `nogenemichaels`\n"));
}

#[test]
fn skip_marker_too_late_or_absent() {
    assert!(!skip("\n\n\n\n\n// `nogenemichaels`\n"));
    assert!(!skip("fn main() {}\n// nogenemichaels\n"));
    assert!(!skip(""));
}

fn where_clause(max_width: usize) -> String {
    let mut st = MakeSegsState::new(config(max_width), vec![]);
    let items = vec![item(1, 7, "A: B", Some(11)), item(1, 13, "C: D", None)];
    let mut root = new_sg(&st);
    root.seg("where");
    root.seg_unsplit(" ");
    append_inline_list(&mut st, &Alignment::new(), &mut root, ",", &items, InlineListSuffix::<Token>::Punct);
    let r = root.build(&mut st);
    st.finish(r).ok().unwrap().rendered
}

#[test]
fn inline_list_flat_and_split() {
    assert_eq!(where_clause(120), "where A: B, C: D");
    assert_eq!(where_clause(8), "where\n    A: B,\n    C: D,");
}

#[test]
fn inline_list_raw_keeps_first_element() {
    let mut st = MakeSegsState::new(config(6), vec![]);
    let items = vec![item(1, 1, "aaa", Some(4)), item(1, 6, "bbb", None)];
    let mut root = new_sg(&st);
    append_inline_list_raw(&mut st, &Alignment::new(), &mut root, " +", &items, InlineListSuffix::<Token>::Nothing);
    let r = root.build(&mut st);
    assert_eq!(st.finish(r).ok().unwrap().rendered, "aaa +\nbbb");
}

fn call_with_rest(max_width: usize) -> String {
    let mut st = MakeSegsState::new(config(max_width), vec![]);
    let items = vec![item(1, 2, "x", Some(3))];
    let mut sg = new_sg(&st);
    let rest = Token { loc: lc(1, 5), text: "..r".to_string() };
    append_bracketed_list(
        &mut st,
        &Alignment::new(),
        &mut sg,
        lc(1, 1),
        "[",
        true,
        &items,
        InlineListSuffix::Extra(rest),
        lc(1, 8),
        "]",
    );
    let r = sg.build(&mut st);
    st.finish(r).ok().unwrap().rendered
}

#[test]
fn bracketed_list_extra_and_padding() {
    assert_eq!(call_with_rest(120), "[ x, ..r ]");
    assert_eq!(call_with_rest(5), "[\n    x,\n    ..r\n]");
}

#[test]
fn bracketed_list_common_into_group() {
    let mut st = MakeSegsState::new(config(120), vec![]);
    let items = vec![item(1, 2, "u8", Some(4)), item(1, 6, "u16", None)];
    let mut sg = new_sg(&st);
    sg.seg("T");
    append_bracketed_list_common(&mut st, &Alignment::new(), &mut sg, lc(1, 1), "<", &items, lc(1, 9), ">");
    let r = sg.build(&mut st);
    assert_eq!(st.finish(r).ok().unwrap().rendered, "T<u8, u16>");
}

#[test]
fn builder_segments_render_by_mode() {
    let mut st = MakeSegsState::new(config(120), vec![]);
    let mut flat = new_sg(&st);
    flat.seg("a");
    flat.seg_unsplit("-flat");
    flat.seg_split("-split");
    flat.split(Alignment::new().indent());
    flat.seg("b");
    let f = flat.build(&mut st);
    let mut forced = new_sg(&st);
    forced.seg("c");
    forced.seg_unsplit("-flat");
    forced.seg_split("-split");
    forced.split_always(Alignment::new().indent());
    forced.seg("d");
    let g = forced.build(&mut st);
    let mut root = new_sg(&st);
    root.child(f);
    root.seg(";");
    root.child(g);
    let r = root.build(&mut st);
    assert_eq!(st.finish(r).ok().unwrap().rendered, "a-flatb;c-split\n    d");
}

#[test]
fn comments_before_prefix_and_suffix() {
    let comments = vec![comment(1, 6, "// head"), comment(3, 1, "// tail")];
    let mut st = MakeSegsState::new(config(120), comments);
    let items = vec![item(2, 1, "a", None)];
    let mut sg = new_sg(&st);
    sg.seg("call");
    append_bracketed_list_common(&mut st, &Alignment::new(), &mut sg, lc(1, 14), "(", &items, lc(4, 1), ")");
    let r = sg.build(&mut st);
    let res = st.finish(r).ok().unwrap();
    assert_eq!(res.rendered, "call\n// head\n(\n    a\n    // tail\n)");
    assert_eq!(res.lost_comments.len(), 0);
}

#[test]
fn comment_before_separator_on_own_line() {
    let mut st = MakeSegsState::new(config(120), vec![comment(1, 3, "/* c */")]);
    let items = vec![item(1, 2, "a", Some(10)), item(1, 12, "b", None)];
    let list = new_sg_bracketed_list_common(&mut st, &Alignment::new(), lc(1, 1), "(", &items, lc(1, 13), ")");
    let res = st.finish(list).ok().unwrap();
    assert_eq!(res.rendered, "(\n    a\n    /* c */\n    ,\n    b\n)");
}

#[test]
fn measure_and_render_arena() {
    let mut st = MakeSegsState::new(config(120), vec![]);
    let mut inner = new_sg(&st);
    inner.seg("xy");
    inner.seg_unsplit("z");
    inner.seg_split("w");
    let c = inner.build(&mut st);
    let mut outer = new_sg(&st);
    outer.seg("[");
    outer.split_always(Alignment::new().indent());
    outer.child(c);
    let r = outer.build(&mut st);
    let (widths, forces) = measure(&st.groups);
    assert_eq!(widths, vec![3, 4]);
    assert_eq!(forces, vec![false, true]);
    assert_eq!(render(&st.groups, r, 120), "[\n    xyz");
    assert_eq!(render(&st.groups, r, 6), "[\n    xyw");
}

#[test]
fn positions_and_comment_copies() {
    assert!(lc(1, 9).before(&lc(2, 0)));
    assert!(lc(2, 1).before(&lc(2, 3)));
    assert!(!lc(2, 3).before(&lc(2, 3)));
    assert!(!lc(3, 0).before(&lc(2, 7)));
    let c = comment(4, 2, "/* x */");
    let d = c.duplicate();
    assert_eq!(d.loc, c.loc);
    assert_eq!(d.text, "/* x */");
}

fn result_of(text: &str) -> FormatResult {
    FormatResult { rendered: text.to_string(), lost_comments: vec![] }
}

#[test]
fn check_result_compares_trees() {
    let src = "fn f(a: i32,b: i32) {}";
    match check_result(src, result_of("fn f(a: i32, b: i32) {}\n")) {
        Ok(t) => assert_eq!(t, "fn f(a: i32, b: i32) {}\n"),
        _ => panic!("equivalent output refused"),
    }
    match check_result(src, result_of("fn f(a: i32,, {")) {
        Err(ProcessError::VerificationFailure) => {},
        _ => panic!("broken output accepted"),
    }
    match check_result(src, result_of("fn f(b: i32, a: i32) {}\n")) {
        Err(ProcessError::VerificationFailure) => {},
        _ => panic!("reordered output accepted"),
    }
}
