use seqalign::{AlignError, Distance, PWAlignment, Step};

fn bytes(s: &str) -> Vec<u8> {
    s.to_string().into_bytes()
}

fn pair(a: &str, b: &str) -> PWAlignment {
    PWAlignment::new(Vec::new(), bytes(a), bytes(b), bytes(""), bytes(""), 0)
}

fn ratio(d: Distance) -> f32 {
    d.numerator as f32 / d.denominator as f32
}

fn text(v: Vec<u8>) -> String {
    String::from_utf8(v).unwrap()
}

fn small_grid() -> Vec<Vec<Step>> {
    vec![
        vec![
            Step::from(0, 0, 0),
            Step::from(0, 1, -1),
            Step::from(0, 2, -2),
            Step::from(0, 3, -3),
        ],
        vec![
            Step::from(1, 0, -1),
            Step::from(1, 1, 0),
            Step::from(1, 2, 0),
            Step::from(1, 3, 1),
        ],
        vec![
            Step::from(2, 0, -2),
            Step::from(2, 1, 0),
            Step::from(2, 2, 1),
            Step::from(2, 3, 1),
        ],
    ]
}

#[test]
fn test_alignment_debug() {
    let a = PWAlignment::new(
        small_grid(),
        bytes("AGC"),
        bytes("CG"),
        bytes("AGC"),
        bytes("CG"),
        0,
    );

    assert_eq!(
        "AGC
CG
   |    | A  | G  | C  |
   | 0  | -1 | -2 | -3 |
C  | -1 | 0  | 0  | 1  |
G  | -2 | 0  | 1  | 1  |
",
        text(a.render_grid())
    )
}

#[test]
fn test_alignment_distance2() {
    let a = PWAlignment::new(
        Vec::new(),
        bytes("ACTGT"),
        bytes("ACAGT"),
        bytes(""),
        bytes(""),
        0,
    );

    assert_eq!(0.2, ratio(a.distance().unwrap()))
}

#[test]
fn distance_counts_a_column_with_one_gap() {
    let d = pair("ACCGT", "AG-CT").distance().unwrap();
    assert_eq!(d, Distance { numerator: 6, denominator: 10 });
    assert_eq!(0.6, ratio(d));
}

#[test]
fn distance_is_an_exact_fraction() {
    let d = pair("ACTGT", "ACAGT").distance().unwrap();
    assert_eq!(d, Distance { numerator: 2, denominator: 10 });
}

#[test]
fn distance_leaves_out_columns_with_two_gaps() {
    let d = pair("A--CT", "A--GT").distance().unwrap();
    assert_eq!(d, Distance { numerator: 2, denominator: 6 });
}

#[test]
fn distance_of_equal_rows_is_zero() {
    let d = pair("ACGT-A", "ACGT-A").distance().unwrap();
    assert_eq!(d, Distance { numerator: 0, denominator: 10 });
    assert_eq!(0.0, ratio(d));
}

#[test]
fn distance_of_rows_without_an_identity_is_one() {
    let d = pair("AAAA", "CC-G").distance().unwrap();
    assert_eq!(d, Distance { numerator: 8, denominator: 8 });
    assert_eq!(1.0, ratio(d));
}

#[test]
fn distance_is_symmetric() {
    let rows = [
        ("ACCGT", "AG-CT"),
        ("ACTGT", "ACAGT"),
        ("-A-C", "-AG-"),
        ("GATTACA", "G-TT-CC"),
    ];
    for (a, b) in rows {
        assert_eq!(pair(a, b).distance(), pair(b, a).distance());
    }
}

#[test]
fn distance_of_gaps_only_is_empty_comparison() {
    assert_eq!(pair("---", "---").distance(), Err(AlignError::EmptyComparison));
}

#[test]
fn distance_of_empty_rows_is_empty_comparison() {
    assert_eq!(pair("", "").distance(), Err(AlignError::EmptyComparison));
}

#[test]
fn distance_of_rows_of_different_length_is_inconsistent() {
    assert_eq!(pair("ACG", "AC").distance(), Err(AlignError::InconsistentAlignment));
    assert_eq!(pair("AC", "ACG").distance(), Err(AlignError::InconsistentAlignment));
    assert_eq!(pair("", "-").distance(), Err(AlignError::InconsistentAlignment));
}

#[test]
fn render_puts_one_row_on_each_line() {
    let a = PWAlignment::new(Vec::new(), bytes("AC-GT"), bytes("ACTGT"), bytes(""), bytes(""), 0);
    assert_eq!("AC-GT\nACTGT", text(a.render()));
}

#[test]
fn render_of_empty_rows_is_a_line_break() {
    assert_eq!("\n", text(pair("", "").render()));
}

#[test]
fn render_grid_header_row_names_the_top_sequence() {
    let a = PWAlignment::new(
        small_grid(),
        bytes("A-GC"),
        bytes("-CG-"),
        bytes("AGC"),
        bytes("CG"),
        1,
    );
    let out = text(a.render_grid());
    let lines: Vec<&str> = out.split('\n').collect();
    assert_eq!(lines[0], "A-GC");
    assert_eq!(lines[1], "-CG-");
    let header = lines[2].as_bytes();
    assert_eq!(header.len(), 9 + 5 * 3);
    assert_eq!(&header[..9], "   |    |".as_bytes());
    for (k, c) in "AGC".bytes().enumerate() {
        assert_eq!(header[9 + 5 * k + 1], c);
        assert_eq!(&header[9 + 5 * k..9 + 5 * k + 5], [b' ', c, b' ', b' ', b'|']);
    }
}

#[test]
fn render_grid_header_column_names_the_bottom_sequence() {
    let a = PWAlignment::new(
        small_grid(),
        bytes("AGC"),
        bytes("CG"),
        bytes("AGC"),
        bytes("CG"),
        0,
    );
    let out = text(a.render_grid());
    let lines: Vec<&str> = out.split('\n').collect();
    assert_eq!(lines.len(), 7);
    assert_eq!(&lines[3][..4], "   |");
    assert_eq!(&lines[4][..4], "C  |");
    assert_eq!(&lines[5][..4], "G  |");
    assert_eq!(lines[6], "");
}

#[test]
fn render_grid_does_not_cut_long_scores() {
    let grid = vec![vec![
        Step::from(0, 0, 7),
        Step::from(0, 1, -12),
        Step::from(0, 2, 123),
        Step::from(0, 3, -1234),
        Step::from(0, 4, 100000),
    ]];
    let a = PWAlignment::new(grid, bytes("x"), bytes("y"), bytes("ACGT"), bytes(""), 0);
    assert_eq!(
        "x\ny\n   |    | A  | C  | G  | T  |\n   | 7  | -12| 123| -1234| 100000|\n",
        text(a.render_grid())
    );
}

#[test]
fn render_grid_of_a_grid_with_one_empty_row() {
    let a = PWAlignment::new(vec![Vec::new()], bytes(""), bytes(""), bytes(""), bytes(""), 0);
    assert_eq!("\n\n   |    |\n   |\n", text(a.render_grid()));
}

#[test]
fn getters_hand_back_the_parts() {
    let a = PWAlignment::new(
        small_grid(),
        bytes("AGC"),
        bytes("CG-"),
        bytes("AGC"),
        bytes("CG"),
        -1,
    );
    assert_eq!(a.a(), &bytes("AGC"));
    assert_eq!(a.b(), &bytes("CG-"));
    assert_eq!(a.a_orig(), &bytes("AGC"));
    assert_eq!(a.b_orig(), &bytes("CG"));
    assert_eq!(a.score(), -1);
    assert_eq!(a.grid().len(), 3);
    assert_eq!(a.grid()[1][3], Step::from(1, 3, 1));
    assert_eq!(a.grid()[2][0].val(), -2);
}
