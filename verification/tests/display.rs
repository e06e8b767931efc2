use megabit_coproc_simulator::connection::websocket_url;
use megabit_coproc_simulator::display::{fill_color, lit_elements};

#[test]
fn small_canvas_even_phase() {
    assert_eq!(lit_elements(32, 16, true), vec![(0, 0), (16, 0), (8, 8), (24, 8)]);
}

#[test]
fn small_canvas_odd_phase() {
    assert_eq!(lit_elements(32, 16, false), vec![(8, 0), (24, 0), (0, 8), (16, 8)]);
}

#[test]
fn partial_elements_are_not_drawn() {
    assert_eq!(lit_elements(23, 15, true), vec![(0, 0)]);
    assert_eq!(lit_elements(31, 8, false), vec![(8, 0)]);
    assert_eq!(lit_elements(7, 100, true), vec![]);
    assert_eq!(lit_elements(0, 0, false), vec![]);
}

#[test]
fn phases_partition_the_grid() {
    let (w, h) = (64 * 8, 32 * 8);
    let even = lit_elements(w, h, true);
    let odd = lit_elements(w, h, false);
    assert_eq!(even.len() + odd.len(), 64 * 32);
    for p in &even {
        assert!(!odd.contains(p));
    }
    for col in 0..64u32 {
        for row in 0..32u32 {
            let p = (col * 8, row * 8);
            assert!(even.contains(&p) != odd.contains(&p));
        }
    }
}

#[test]
fn colours() {
    assert_eq!(fill_color(true), "#ff0000");
    assert_eq!(fill_color(false), "#0000ff");
}

#[test]
fn websocket_urls() {
    assert_eq!(websocket_url(Some(("localhost", "8000"))), "ws://localhost:8000/ws");
    assert_eq!(websocket_url(Some(("example.org", ""))), "ws://example.org:/ws");
    assert_eq!(websocket_url(None), "ws:///ws");
}
