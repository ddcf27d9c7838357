use kernel::backrooms::pathfinding::monster_step;
use kernel::backrooms::{
    cell_walkable, centered_x, is_exit, leaves_end_screen, title_choice, MouseDecoder, MouseRing,
    PacketStage, MAP,
};
use std::collections::VecDeque;

fn walkable(map: &[u8], x: i32, y: i32) -> bool {
    x >= 0 && x < 32 && y >= 0 && y < 32 && (map[(y * 32 + x) as usize] == 0 || map[(y * 32 + x) as usize] == 2)
}

/// Distances by an independent breadth-first search.
fn reference_distances(map: &[u8], px: i32, py: i32) -> Vec<u32> {
    let mut d = vec![u32::MAX; 1024];
    let mut q = VecDeque::new();
    d[(py * 32 + px) as usize] = 0;
    q.push_back((px, py));
    while let Some((x, y)) = q.pop_front() {
        for (nx, ny) in [(x - 1, y), (x + 1, y), (x, y - 1), (x, y + 1)] {
            if walkable(map, nx, ny) && d[(ny * 32 + nx) as usize] == u32::MAX {
                d[(ny * 32 + nx) as usize] = d[(y * 32 + x) as usize] + 1;
                q.push_back((nx, ny));
            }
        }
    }
    d
}

fn reference_step(map: &[u8], mx: i32, my: i32, px: i32, py: i32) -> Option<(usize, usize)> {
    if (mx, my) == (px, py) {
        return None;
    }
    let d = reference_distances(map, px, py);
    let mut best = None;
    let mut best_d = u32::MAX;
    for (nx, ny) in [(mx - 1, my), (mx + 1, my), (mx, my - 1), (mx, my + 1)] {
        if nx >= 0 && nx < 32 && ny >= 0 && ny < 32 {
            let v = d[(ny * 32 + nx) as usize];
            if v < best_d {
                best_d = v;
                best = Some((nx as usize, ny as usize));
            }
        }
    }
    best
}

#[test]
fn maze_cells() {
    assert!(!cell_walkable(&MAP, 0, 0));
    assert!(cell_walkable(&MAP, 1, 1));
    assert!(cell_walkable(&MAP, 30, 29));
    assert!(is_exit(&MAP, 30, 29));
    assert!(!is_exit(&MAP, 1, 1));
    assert!(!cell_walkable(&MAP, 32, 1));
}

#[test]
fn monster_heads_towards_player() {
    assert_eq!(monster_step(&MAP, 29, 29, 1, 1), reference_step(&MAP, 29, 29, 1, 1));
    assert_eq!(monster_step(&MAP, 2, 1, 1, 1), Some((1, 1)));
    assert_eq!(monster_step(&MAP, 1, 1, 1, 1), None);
}

#[test]
fn monster_steps_match_reference_everywhere() {
    for (px, py) in [(1, 1), (15, 8), (30, 29)] {
        for my in 0..32 {
            for mx in 0..32 {
                assert_eq!(
                    monster_step(&MAP, mx as usize, my as usize, px as usize, py as usize),
                    reference_step(&MAP, mx, my, px, py),
                    "monster ({}, {}) player ({}, {})",
                    mx,
                    my,
                    px,
                    py
                );
            }
        }
    }
}

#[test]
fn monster_walled_in_has_no_step() {
    let mut map = vec![1u8; 1024];
    map[5 * 32 + 5] = 0;
    map[10 * 32 + 10] = 0;
    assert_eq!(monster_step(&map, 5, 5, 10, 10), None);
}

#[test]
fn mouse_ring_is_fifo() {
    let mut r = MouseRing::new();
    assert_eq!(r.pop(), None);
    r.push(1);
    r.push(2);
    assert_eq!(r.pop(), Some(1));
    assert_eq!(r.pop(), Some(2));
    assert_eq!(r.pop(), None);
}

#[test]
fn mouse_ring_drops_when_full() {
    let mut r = MouseRing::new();
    for i in 0..300u32 {
        r.push(i as u8);
    }
    for i in 0..255u32 {
        assert_eq!(r.pop(), Some(i as u8));
    }
    assert_eq!(r.pop(), None);
}

#[test]
fn mouse_packets() {
    let mut d = MouseDecoder::new();
    assert_eq!(d.packet, [0, 0, 0]);
    assert_eq!(d.feed(0x00), None);
    assert!(d.stage == PacketStage::First);
    assert_eq!(d.feed(0x08), None);
    assert_eq!(d.feed(5), None);
    assert_eq!(d.feed(0), Some(5));
    assert_eq!(d.feed(0x18), None);
    assert_eq!(d.feed(0xFB), None);
    assert_eq!(d.feed(0), Some(-5));
}

#[test]
fn title_screen() {
    assert_eq!(centered_x(13), (1920 - 13 * 16) / 2);
    assert_eq!(title_choice(10), Some(true));
    assert_eq!(title_choice(b'q'), Some(false));
    assert_eq!(title_choice(b'Q'), Some(false));
    assert_eq!(title_choice(b'x'), None);
    assert!(leaves_end_screen(10));
    assert!(leaves_end_screen(b'Q'));
    assert!(!leaves_end_screen(b'w'));
}

#[test]
fn monster_step_is_one_step_nearer() {
    for (px, py) in [(1usize, 1usize), (15, 8), (30, 29)] {
        let d = reference_distances(&MAP, px as i32, py as i32);
        for my in 0..32usize {
            for mx in 0..32usize {
                let here = d[my * 32 + mx];
                if let Some((nx, ny)) = monster_step(&MAP, mx, my, px, py) {
                    if here != u32::MAX {
                        assert_eq!(d[ny * 32 + nx], here - 1);
                    }
                }
            }
        }
    }
}

#[test]
fn mouse_ring_run_fills_remaining_room() {
    let mut r = MouseRing::new();
    for i in 0..10u8 {
        r.push(i);
    }
    for i in 0..300u32 {
        r.push((100 + i) as u8);
    }
    for i in 0..10u8 {
        assert_eq!(r.pop(), Some(i));
    }
    for i in 0..245u32 {
        assert_eq!(r.pop(), Some((100 + i) as u8));
    }
    assert_eq!(r.pop(), None);
}
