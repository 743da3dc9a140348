//! The interactive table.

use zerocloud::double::Double;
use zerocloud::fit::Confidence;
use zerocloud::predict::{Prediction, Verdict};
use zerocloud::report::charset::Charset;
use zerocloud::report::{Row, SortKey};
use zerocloud::spec::{Quant, QuantFamily};
use zerocloud::tui::frame::{body_height, fit, frame, layout, Cols, RowView, View};
use zerocloud::tui::run::{to_key, vim_key, visible_rows, KeyCode, KeyPress};
use zerocloud::tui::state::{on_key, Action, Key, State};

fn d(x: f64) -> Double {
    Double::from_bits(x.to_bits())
}

fn row(id: &str, resident: f64, ttft: Option<&str>) -> RowView {
    RowView {
        id: id.to_string(),
        quant: "Q4_K_M".to_string(),
        speed: "10.3-17.2".to_string(),
        ctx: "37K".to_string(),
        ttft: ttft.unwrap_or("-").to_string(),
        conf: "low".to_string(),
        resident: d(resident),
        wont_fit: false,
        weight_bytes: 8_600_000_000,
        eta: d(0.875),
        kv_bytes_per_token: 524_288,
        max_context: 37_000,
    }
}

fn view() -> View {
    View {
        cpu: "Apple M5".into(),
        backend: "metal".into(),
        mem_total: 17_179_869_184,
        version: "0.1.0".into(),
        ram_bw_gbs: d(125.0),
        disk_gbs: d(5.0),
        gflops: d(367.0),
        kv: "F16".into(),
        prompt_tokens: 2048,
        total_rows: 26,
        rows: vec![
            row("qwen3-1.7b", 1.0, Some("0.9s")),
            row("llama-3.1-8b", 0.84, Some("3.4s")),
            row("deepseek-r1-distill-llama-8b", 0.28, None),
        ],
    }
}

fn render(w: usize, h: usize, cs: Charset, f: impl Fn(&mut State)) -> Vec<String> {
    let v = view();
    let idx: Vec<usize> = (0..v.rows.len()).collect();
    let mut s = State::new(idx.len());
    f(&mut s);
    let n = idx.len();
    frame(&v, &idx, n, &s, cs, w, h)
}

fn plain(w: usize, h: usize) -> Vec<String> {
    render(w, h, Charset::Unicode, |_| {})
}

#[test]
fn no_line_ever_exceeds_the_width_it_was_given() {
    for w in [40usize, 60, 80, 120, 200] {
        for l in plain(w, 24) {
            assert!(
                l.chars().count() <= w,
                "{} cols at w={w}: {l}",
                l.chars().count()
            );
        }
    }
}

#[test]
fn no_line_carries_trailing_whitespace() {
    for st in [0, 1, 2] {
        let f = render(80, 30, Charset::Unicode, |s| {
            s.detail = st == 1;
            s.help = st == 2;
        });
        for l in f {
            assert_eq!(l.trim_end(), l, "trailing whitespace: {l:?}");
        }
    }
}

#[test]
fn a_frame_is_exactly_as_tall_as_requested() {
    for h in [10usize, 24, 50] {
        assert_eq!(plain(80, h).len(), h, "h={h}");
    }
    for h in [10usize, 24, 50] {
        let f = render(80, h, Charset::Unicode, |s| s.detail = true);
        assert_eq!(f.len(), h, "with detail, h={h}");
    }
}

#[test]
fn ascii_and_unicode_frames_have_the_same_shape() {
    let u = render(80, 24, Charset::Unicode, |s| s.detail = true);
    let a = render(80, 24, Charset::Ascii, |s| s.detail = true);
    assert_eq!(u.len(), a.len());
    for (x, y) in u.iter().zip(a.iter()) {
        assert_eq!(x.chars().count(), y.chars().count(), "\n{x}\n{y}");
    }
}

#[test]
fn a_tiny_terminal_gets_a_message_not_a_broken_table() {
    let f = plain(20, 6);
    assert_eq!(f.len(), 6);
    assert!(f.iter().any(|l| l.contains("too small")), "{f:?}");
}

#[test]
fn the_detail_pane_shows_the_derivation() {
    let f = render(100, 30, Charset::Unicode, |s| s.detail = true).join("\n");
    for want in ["weights", "bandwidth", "eta", "context", "resident"] {
        assert!(f.contains(want), "detail pane missing {want:?}:\n{f}");
    }
}

#[test]
fn an_unmeasured_field_is_a_dash_in_the_pane() {
    let f = render(100, 30, Charset::Unicode, |s| {
        s.detail = true;
        s.cursor = 2; // the row whose TTFT is None
    });
    let ttft = f
        .iter()
        .find(|l| l.starts_with("  TTFT "))
        .expect("no TTFT line in the pane");
    let value = ttft.split_whitespace().nth(1).unwrap();
    assert_eq!(value, "-", "unmeasured TTFT must print a dash: {ttft}");
}

#[test]
fn the_pane_reports_spill_only_when_there_is_some() {
    let spills = render(100, 30, Charset::Unicode, |s| {
        s.detail = true;
        s.cursor = 1;
    })
    .join("\n");
    assert!(spills.contains("spill"), "{spills}");
    let resident = render(100, 30, Charset::Unicode, |s| {
        s.detail = true;
        s.cursor = 0;
    })
    .join("\n");
    assert!(
        !resident.contains("spill"),
        "a fully resident model has no spill line:\n{resident}"
    );
}

#[test]
fn the_help_overlay_lists_every_key() {
    let f = render(100, 30, Charset::Unicode, |s| s.help = true).join("\n");
    for k in ["enter", "/", "s", "a", "q", "pgup", "home"] {
        assert!(f.contains(k), "help overlay missing {k:?}:\n{f}");
    }
}

#[test]
fn an_empty_result_set_says_so() {
    let v = view();
    let mut s = State::new(0);
    s.filter = "zzz".into();
    let f = frame(&v, &Vec::new(), 3, &s, Charset::Unicode, 80, 24);
    assert!(f.iter().any(|l| l.contains("nothing matches")), "{f:?}");
    assert_eq!(f.len(), 24);
}

#[test]
fn the_speed_column_survives_every_width() {
    for w in [40usize, 48, 55, 62, 70, 80, 120] {
        let f = plain(w, 24);
        let row = f
            .iter()
            .find(|l| l.contains("qwen3-1.7b"))
            .unwrap_or_else(|| panic!("no model row at w={w}:\n{}", f.join("\n")));
        assert!(
            row.contains("10.3-17.2"),
            "speed cut off at w={w}: {row:?}"
        );
    }
}

#[test]
fn columns_drop_in_a_fixed_order_as_the_window_narrows() {
    let v = view();
    let idx: Vec<usize> = (0..v.rows.len()).collect();
    let wide = layout(&v, &idx, 120).1;
    assert_eq!(
        wide,
        Cols { ctx: true, ttft: true, conf: true, resid: true },
        "everything fits at 120"
    );
    let mut prev = wide;
    for w in (40..=120).rev() {
        let c = layout(&v, &idx, w).1;
        for (now, before) in [
            (c.ctx, prev.ctx),
            (c.ttft, prev.ttft),
            (c.conf, prev.conf),
            (c.resid, prev.resid),
        ] {
            assert!(!now || before, "a column came back at w={w}");
        }
        prev = c;
    }
    let narrow = layout(&v, &idx, 60).1;
    assert!(!narrow.conf, "conf should drop before ctx");
}

#[test]
fn exactly_one_row_carries_the_cursor() {
    let f = render(80, 24, Charset::Unicode, |s| s.cursor = 1);
    assert_eq!(f.iter().filter(|l| l.starts_with('>')).count(), 1);
}

#[test]
fn vim_keys_are_text_inside_the_filter() {
    assert_eq!(vim_key(Key::Char('j'), false), Key::Down);
    assert_eq!(vim_key(Key::Char('k'), false), Key::Up);
    assert_eq!(vim_key(Key::Char('G'), false), Key::End);
    assert_eq!(vim_key(Key::Char('j'), true), Key::Char('j'));
    assert_eq!(vim_key(Key::Char('G'), true), Key::Char('G'));
}

#[test]
fn a_key_release_is_ignored() {
    let mut e = press(KeyCode::Down, false);
    e.release = true;
    assert_eq!(to_key(e), None);
    let mut e = press(KeyCode::Down, false);
    e.release = false;
    assert_eq!(to_key(e), Some(Key::Down));
}

#[test]
fn ctrl_c_maps_to_quit() {
    let e = press(KeyCode::Char('c'), true);
    assert_eq!(to_key(e), Some(Key::Quit));
    let e = press(KeyCode::Char('c'), false);
    assert_eq!(to_key(e), Some(Key::Char('c')));
}

fn state_of(n: usize) -> State {
    State::new(n)
}

#[test]
fn the_cursor_cannot_leave_the_row_set() {
    let mut s = state_of(3);
    on_key(&mut s, Key::Up);
    assert_eq!(s.cursor, 0, "up at the top must stay at the top");
    for _ in 0..10 {
        on_key(&mut s, Key::Down);
    }
    assert_eq!(s.cursor, 2, "down at the bottom must stay at the bottom");
}

#[test]
fn an_empty_row_set_is_navigable_without_panicking() {
    let mut s = state_of(0);
    on_key(&mut s, Key::Down);
    on_key(&mut s, Key::End);
    on_key(&mut s, Key::PageDown);
    on_key(&mut s, Key::Home);
    assert_eq!(s.cursor, 0);
}

#[test]
fn home_and_end_jump_to_the_ends() {
    let mut s = state_of(50);
    on_key(&mut s, Key::End);
    assert_eq!(s.cursor, 49);
    on_key(&mut s, Key::Home);
    assert_eq!(s.cursor, 0);
}

#[test]
fn page_moves_use_the_height_of_the_last_frame() {
    let mut s = state_of(100);
    s.scroll_into_view(20);
    on_key(&mut s, Key::PageDown);
    assert_eq!(s.cursor, 20);
    on_key(&mut s, Key::PageUp);
    assert_eq!(s.cursor, 0);
}

#[test]
fn sort_cycles_through_three_and_returns() {
    let mut s = state_of(5);
    assert_eq!(s.sort, SortKey::Verdict);
    on_key(&mut s, Key::Char('s'));
    assert_eq!(s.sort, SortKey::Decode);
    on_key(&mut s, Key::Char('s'));
    assert_eq!(s.sort, SortKey::Context);
    on_key(&mut s, Key::Char('s'));
    assert_eq!(s.sort, SortKey::Verdict);
}

#[test]
fn keys_typed_into_the_filter_are_text_not_commands() {
    let mut s = state_of(5);
    on_key(&mut s, Key::Slash);
    assert!(s.filtering);
    on_key(&mut s, Key::Char('s'));
    on_key(&mut s, Key::Char('q'));
    assert_eq!(s.filter, "sq");
    assert_eq!(s.sort, SortKey::Verdict, "'s' was text, not a sort command");
    on_key(&mut s, Key::Backspace);
    assert_eq!(s.filter, "s");
}

#[test]
fn esc_leaves_the_filter_and_then_quits() {
    let mut s = state_of(5);
    on_key(&mut s, Key::Slash);
    on_key(&mut s, Key::Char('x'));
    assert_eq!(on_key(&mut s, Key::Esc), Action::Redraw);
    assert!(!s.filtering);
    assert_eq!(s.filter, "", "leaving the filter clears it");
    assert_eq!(on_key(&mut s, Key::Esc), Action::Quit);
}

#[test]
fn esc_clears_a_committed_filter_before_it_quits() {
    let mut s = state_of(5);
    on_key(&mut s, Key::Slash);
    on_key(&mut s, Key::Char('q'));
    on_key(&mut s, Key::Char('w'));
    assert_eq!(on_key(&mut s, Key::Enter), Action::Redraw);
    assert!(!s.filtering, "enter commits the filter");
    assert_eq!(s.filter, "qw", "and leaves it active");
    assert_eq!(on_key(&mut s, Key::Esc), Action::Redraw, "esc clears it");
    assert_eq!(s.filter, "");
    assert_eq!(on_key(&mut s, Key::Esc), Action::Quit, "then esc quits");
}

#[test]
fn q_quits_but_only_outside_the_filter() {
    let mut s = state_of(5);
    on_key(&mut s, Key::Slash);
    assert_eq!(on_key(&mut s, Key::Char('q')), Action::Redraw);
    on_key(&mut s, Key::Esc);
    assert_eq!(on_key(&mut s, Key::Char('q')), Action::Quit);
}

#[test]
fn ctrl_c_quits_from_anywhere() {
    let mut s = state_of(5);
    on_key(&mut s, Key::Slash);
    assert_eq!(on_key(&mut s, Key::Quit), Action::Quit);
    let mut s = state_of(5);
    on_key(&mut s, Key::Char('?'));
    assert_eq!(on_key(&mut s, Key::Quit), Action::Quit);
}

#[test]
fn enter_toggles_the_detail_pane() {
    let mut s = state_of(5);
    assert!(!s.detail);
    on_key(&mut s, Key::Enter);
    assert!(s.detail);
    on_key(&mut s, Key::Enter);
    assert!(!s.detail);
}

#[test]
fn the_help_overlay_swallows_navigation_until_dismissed() {
    let mut s = state_of(5);
    on_key(&mut s, Key::Char('?'));
    assert!(s.help);
    on_key(&mut s, Key::Down);
    assert_eq!(s.cursor, 0, "help must swallow navigation");
    on_key(&mut s, Key::Esc);
    assert!(!s.help);
    on_key(&mut s, Key::Down);
    assert_eq!(s.cursor, 1);
}

#[test]
fn shrinking_the_row_set_pulls_the_cursor_back() {
    let mut s = state_of(50);
    on_key(&mut s, Key::End);
    assert_eq!(s.cursor, 49);
    s.set_len(3);
    assert_eq!(s.cursor, 2);
    s.set_len(0);
    assert_eq!(s.cursor, 0);
}

#[test]
fn scrolling_keeps_the_cursor_visible_after_a_resize() {
    let mut s = state_of(100);
    s.scroll_into_view(20);
    on_key(&mut s, Key::End);
    s.scroll_into_view(20);
    assert!(s.cursor >= s.top && s.cursor < s.top + 20);
    s.scroll_into_view(5);
    assert!(
        s.cursor >= s.top && s.cursor < s.top + 5,
        "cursor {} not inside [{}, {})",
        s.cursor,
        s.top,
        s.top + 5
    );
}

fn press(code: KeyCode, control: bool) -> KeyPress {
    KeyPress { code, control, release: false }
}

#[test]
fn other_keys_map_to_nothing_or_themselves() {
    assert_eq!(to_key(press(KeyCode::Other, false)), None);
    assert_eq!(to_key(press(KeyCode::Char('/'), false)), Some(Key::Slash));
    assert_eq!(to_key(press(KeyCode::Home, false)), Some(Key::Home));
}

fn found_row(id: &str, quant: &str, decode: f64) -> Row {
    Row {
        model_id: id.into(),
        quant: Quant { name: quant.into(), bytes: 1 << 30, family: QuantFamily::KQuant },
        prediction: Prediction {
            resident_fraction: d(1.0),
                decode_tok_s: (d(decode), d(decode)),
            prefill_tok_s: None,
            ttft_s: None,
            prefill_confidence: Confidence::Prior,
            max_context: 4096,
            kv_bytes_per_token: 1,
            verdict: Verdict::Good,
            raw_seconds_per_token: d(0.1),
            assumed_eta: d(0.5),
            confidence: Confidence::Prior,
        },
    }
}

#[test]
fn the_filter_narrows_what_is_visible() {
    let rows = vec![found_row("Qwen3-4b", "Q4_K_M", 20.0), found_row("Qwen3-4b", "Q8_0", 12.0), found_row("llama", "Q4_K_M", 15.0)];
    let mut s = State::new(3);
    let (idx, total) = visible_rows(&rows, &s);
    assert_eq!((idx.len(), total), (2, 2));
    s.show_all = true;
    s.filter = "qwen".into();
    let (idx, total) = visible_rows(&rows, &s);
    assert_eq!((idx, total), (vec![0, 1], 3));
    s.filter = "zzz".into();
    assert!(visible_rows(&rows, &s).0.is_empty());
}

#[test]
fn a_line_is_cut_to_its_width() {
    assert_eq!(fit("abcdef", 4).chars().count(), 4);
    assert_eq!(fit("ab   ", 10), "ab");
    assert_eq!(body_height(24), 18);
    assert_eq!(body_height(3), 0);
}
