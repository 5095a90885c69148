use xcrab::geometry::{Dimensions, Directionality};

fn d(x: u16, y: u16, w: u16, h: u16) -> Dimensions {
    Dimensions { x, y, width: w, height: h }
}

#[test]
fn split_two_horizontal_exact() {
    let slots = d(20, 20, 1880, 1040).split(Directionality::Horizontal, 2, 20);
    assert_eq!(slots.len(), 2);
    assert_eq!(slots[0], d(20, 20, 930, 1040));
    assert_eq!(slots[1], d(970, 20, 930, 1040));
}

#[test]
fn split_two_vertical_exact() {
    let slots = d(970, 20, 930, 1040).split(Directionality::Vertical, 2, 20);
    assert_eq!(slots[0], d(970, 20, 930, 510));
    assert_eq!(slots[1], d(970, 550, 930, 510));
}

#[test]
fn split_lengths_sum_and_balance() {
    // uneven division: widths sum to total minus gaps, max-min <= 1
    let total: u16 = 997;
    let n = 7usize;
    let gap: u16 = 13;
    let slots = d(0, 0, total, 100).split(Directionality::Horizontal, n, gap);
    let sum: u32 = slots.iter().map(|s| s.width as u32).sum();
    assert_eq!(sum, (total - gap * (n as u16 - 1)) as u32);
    let mx = slots.iter().map(|s| s.width).max().unwrap();
    let mn = slots.iter().map(|s| s.width).min().unwrap();
    assert!(mx - mn <= 1);
    // slots tile the run: each begins one gap after the previous ends
    for w in slots.windows(2) {
        assert_eq!(w[1].x, w[0].x + w[0].width + gap);
    }
    assert_eq!(slots[0].x, 0);
    assert_eq!(slots[n - 1].x + slots[n - 1].width, total);
}

#[test]
fn split_single_is_identity() {
    let r = d(5, 6, 70, 80);
    let slots = r.split(Directionality::Vertical, 1, 20);
    assert_eq!(slots[0], r);
}
