use jst::geometry::{wall_window, wrap_column, FaceGeom, Geometry};
use jst::field::Field;
use jst::text::{parse_usize_chars, split_words, trim_chars};
use jst::choose_threads;

#[test]
fn thread_count_follows_the_cells_per_thread_rule() {
    assert_eq!(choose_threads(0, 8), 1);
    assert_eq!(choose_threads(24_576, 8), 1);
    assert_eq!(choose_threads(24_577, 8), 1);
    assert_eq!(choose_threads(49_151, 8), 1);
    assert_eq!(choose_threads(49_152, 8), 2);
    assert_eq!(choose_threads(294_912, 24), 12);
    assert_eq!(choose_threads(1_000_000, 4), 4);
    assert_eq!(choose_threads(1_000_000, 0), 1);
}

fn geometry(ni: usize, nj: usize) -> Geometry<f64> {
    Geometry {
        ni,
        nj,
        vol: Field::new(ni, nj, 1),
        cx: Field::new(ni, nj, 1),
        cy: Field::new(ni, nj, 1),
        wall_dist: Field::new(ni, nj, 1),
        inv_vol: Field::new(ni, nj, 1),
        inv_wall_dist_sq: Field::new(ni, nj, 1),
        tau: Field::new(ni + 1, nj, 0),
        nrm: Field::new(ni, nj, 0),
    }
}

#[test]
fn jp1_wraps_around_the_ring() {
    let g = geometry(3, 8);
    assert_eq!(g.jp1(0), 1);
    assert_eq!(g.jp1(6), 7);
    assert_eq!(g.jp1(7), 0);
    let f: FaceGeom<f64> = g.tau.get(3, 7);
    assert_eq!(f.nx, 0.0);
}

#[test]
fn wall_window_is_capped_at_half_the_ring() {
    assert_eq!(wall_window(8), 4);
    assert_eq!(wall_window(40), 15);
    assert_eq!(wall_window(200), 40);
    assert_eq!(wall_window(0), 0);
}

#[test]
fn wrap_column_is_the_euclidean_remainder() {
    assert_eq!(wrap_column(-1, 12), 11);
    assert_eq!(wrap_column(-12, 12), 0);
    assert_eq!(wrap_column(-13, 12), 11);
    assert_eq!(wrap_column(25, 12), 1);
    assert_eq!(wrap_column(isize::MIN, 7), isize::MIN.rem_euclid(7) as usize);
}

fn chars(s: &str) -> Vec<char> {
    s.chars().collect()
}

#[test]
fn usize_literals_read_like_str_parse() {
    for s in ["0", "12", "+7", "007", "18446744073709551615", "", "+", "-1", "1a", " 1", "18446744073709551616", "++1"] {
        assert_eq!(parse_usize_chars(&chars(s)), s.parse::<usize>().ok(), "literal {s:?}");
    }
}

#[test]
fn trimming_and_words_follow_str() {
    for s in ["", "  ", " a b ", "\u{2003}x\u{85}", "a\r", "\tone  two\nthree "] {
        let t: String = trim_chars(&chars(s)).into_iter().collect();
        assert_eq!(t, s.trim());
        let w: Vec<String> = split_words(&chars(s)).into_iter().map(|w| w.into_iter().collect()).collect();
        let want: Vec<String> = s.split_whitespace().map(String::from).collect();
        assert_eq!(w, want);
    }
}
