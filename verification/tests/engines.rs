use seqalign::grid::fill_grid;
use seqalign::smith_waterman::best_cell;
use seqalign::traceback::{reversed, traceback};
use seqalign::{
    AlignError, Distance, Matrix, NeedlemanWunsch, PWAlign, PWAlignment, Scoring, SmithWaterman,
    Step, Variant,
};

fn bytes(s: &str) -> Vec<u8> {
    s.to_string().into_bytes()
}

fn text(v: &Vec<u8>) -> String {
    String::from_utf8(v.clone()).unwrap()
}

fn dna(matching: i32, mismatching: i32) -> Matrix {
    let symbols = bytes("ACGT");
    let mut scores = Vec::new();
    for r in 0..4 {
        let mut row = Vec::new();
        for c in 0..4 {
            row.push(if r == c { matching } else { mismatching });
        }
        scores.push(row);
    }
    Matrix::new(symbols, scores).unwrap()
}

fn scoring(matching: i32, mismatching: i32, opening: i32, extension: i32) -> Scoring {
    Scoring::new(dna(matching, mismatching), opening, extension)
}

fn global(a: &str, b: &str, s: Scoring) -> Result<PWAlignment, AlignError> {
    NeedlemanWunsch::new(bytes(a), bytes(b), s).align()
}

fn local(a: &str, b: &str, s: Scoring) -> Result<PWAlignment, AlignError> {
    SmithWaterman::new(bytes(a), bytes(b), s).align()
}

fn values(al: &PWAlignment) -> Vec<Vec<i128>> {
    al.grid().iter().map(|row| row.iter().map(|c| c.val()).collect()).collect()
}

fn failure(r: Result<PWAlignment, AlignError>) -> AlignError {
    match r {
        Ok(_) => panic!("the run should have failed"),
        Err(e) => e,
    }
}

#[test]
fn global_aligns_two_sequences_end_to_end() {
    let al = global("GATTACA", "GCATGCT", scoring(1, -1, 2, 1)).unwrap();
    assert_eq!("GATTACA", text(al.a()));
    assert_eq!("GCATGCT", text(al.b()));
    assert_eq!(-1, al.score());
    assert_eq!("GATTACA", text(al.a_orig()));
    assert_eq!("GCATGCT", text(al.b_orig()));
    assert_eq!(al.distance(), Ok(Distance { numerator: 8, denominator: 14 }));
}

#[test]
fn global_fills_the_whole_grid() {
    let al = global("GATTACA", "GCATGCT", scoring(1, -1, 2, 1)).unwrap();
    let expected: Vec<Vec<i128>> = vec![
        vec![0, -2, -3, -4, -5, -6, -7, -8],
        vec![-2, 1, -1, -2, -3, -4, -5, -6],
        vec![-3, -1, 0, -2, -3, -4, -3, -5],
        vec![-4, -2, 0, -1, -3, -2, -4, -2],
        vec![-5, -3, -2, 1, 0, -2, -3, -4],
        vec![-6, -4, -3, -1, 0, -1, -3, -4],
        vec![-7, -6, -4, -2, -2, -1, 0, -2],
        vec![-8, -7, -5, -3, -1, -3, -2, -1],
    ];
    assert_eq!(expected, values(&al));
}

#[test]
fn grid_has_a_cell_in_its_place_for_every_pair_of_prefixes() {
    for (a, b) in [("A", "C"), ("ACGT", "AC"), ("AC", "ACGTT"), ("GATTACA", "GCATGCT")] {
        for al in [
            global(a, b, scoring(1, -1, 2, 1)).unwrap(),
            local(a, b, scoring(1, -1, 2, 1)).unwrap(),
        ] {
            assert_eq!(al.grid().len(), b.len() + 1);
            for (i, row) in al.grid().iter().enumerate() {
                assert_eq!(row.len(), a.len() + 1);
                for (j, c) in row.iter().enumerate() {
                    assert_eq!((c.i(), c.j()), (i, j));
                    if let Some((pi, pj)) = c.next() {
                        assert!(
                            (pi + 1 == i && pj + 1 == j)
                                || (pi + 1 == i && pj == j)
                                || (pi == i && pj + 1 == j)
                        );
                    }
                }
            }
        }
    }
}

#[test]
fn global_rows_have_equal_length() {
    for (a, b) in [("A", "CCCC"), ("ACGT", "AC"), ("AC", "ACGTT"), ("TTTT", "AAAA")] {
        let al = global(a, b, scoring(2, -3, 2, 1)).unwrap();
        assert_eq!(al.a().len(), al.b().len());
        let top: Vec<u8> = al.a().iter().copied().filter(|c| *c != b'-').collect();
        let bottom: Vec<u8> = al.b().iter().copied().filter(|c| *c != b'-').collect();
        assert_eq!(top, bytes(a));
        assert_eq!(bottom, bytes(b));
    }
}

#[test]
fn global_sets_the_longer_sequence_against_a_gap() {
    let al = global("ACGTTT", "ACG", scoring(1, -1, 3, 1)).unwrap();
    assert_eq!("ACGTTT", text(al.a()));
    assert_eq!("ACG---", text(al.b()));
    assert_eq!(-2, al.score());
    assert_eq!(al.distance(), Ok(Distance { numerator: 6, denominator: 12 }));
}

#[test]
fn global_takes_the_diagonal_first_and_the_vertical_second() {
    let al = global("AGC", "CG", scoring(1, -1, 1, 1)).unwrap();
    assert_eq!("AGC", text(al.a()));
    assert_eq!("CG-", text(al.b()));
    assert_eq!(-1, al.score());
    let expected: Vec<Vec<i128>> =
        vec![vec![0, -1, -2, -3], vec![-1, -1, -2, -1], vec![-2, -2, 0, -1]];
    assert_eq!(expected, values(&al));
    assert_eq!(al.grid()[1][1].next(), Some((0, 0)));
    assert_eq!(al.grid()[2][1].next(), Some((1, 0)));
}

#[test]
fn global_boundary_accumulates_the_affine_gap_cost() {
    let s = scoring(1, -1, 5, 2);
    let al = global("ACGTAC", "ACG", scoring(1, -1, 5, 2)).unwrap();
    assert_eq!(al.grid()[0][0].val(), 0);
    assert_eq!(al.grid()[0][0].next(), None);
    for j in 1..=6usize {
        assert_eq!(al.grid()[0][j].val(), -s.gap_cost(j));
        assert_eq!(al.grid()[0][j].next(), Some((0, j - 1)));
    }
    for i in 1..=3usize {
        assert_eq!(al.grid()[i][0].val(), -s.gap_cost(i));
        assert_eq!(al.grid()[i][0].next(), Some((i - 1, 0)));
    }
    assert_eq!(al.grid()[0][6].val(), -15);
}

#[test]
fn global_of_a_sequence_with_itself_has_no_gaps_and_distance_zero() {
    for a in ["A", "ACGT", "GATTACA", "TTTTTTTT"] {
        let al = global(a, a, scoring(3, -1, 2, 1)).unwrap();
        assert_eq!(a, text(al.a()));
        assert_eq!(a, text(al.b()));
        assert_eq!(3 * a.len() as i128, al.score());
        let d = al.distance().unwrap();
        assert_eq!(d.numerator, 0);
        assert_eq!(d.denominator, 2 * a.len() as u128);
    }
}

#[test]
fn global_of_a_sequence_with_itself_sums_the_scores_of_its_symbols() {
    let m = Matrix::new(
        bytes("ACG"),
        vec![vec![4, -1, -2], vec![-1, 7, 0], vec![-2, 0, 1]],
    )
    .unwrap();
    let al = NeedlemanWunsch::new(bytes("ACCGA"), bytes("ACCGA"), Scoring::new(m, 3, 1))
        .align()
        .unwrap();
    assert_eq!("ACCGA", text(al.a()));
    assert_eq!("ACCGA", text(al.b()));
    assert_eq!(4 + 7 + 7 + 1 + 4, al.score());
}

#[test]
fn global_with_itself_prefers_gaps_where_identities_cost() {
    let m = Matrix::new(bytes("A"), vec![vec![-1]]).unwrap();
    let al = NeedlemanWunsch::new(bytes("AA"), bytes("AA"), Scoring::new(m, 0, 0))
        .align()
        .unwrap();
    assert_eq!(0, al.score());
    assert_eq!(4, al.a().len());
    assert_eq!(al.distance().unwrap().numerator, 8);
}

#[test]
fn swapping_the_sequences_can_change_the_global_alignment() {
    let first = global("CCG", "GAGC", scoring(2, -3, 2, 1)).unwrap();
    let second = global("GAGC", "CCG", scoring(2, -3, 2, 1)).unwrap();
    assert_eq!(first.score(), -6);
    assert_eq!(second.score(), -6);
    assert_eq!(first.distance(), Ok(Distance { numerator: 6, denominator: 8 }));
    assert_eq!(second.distance(), Ok(Distance { numerator: 8, denominator: 10 }));
}

#[test]
fn local_aligns_the_best_subregion() {
    let al = local("TTACGTT", "GGACGGG", scoring(2, -1, 2, 1)).unwrap();
    assert_eq!("ACG", text(al.a()));
    assert_eq!("ACG", text(al.b()));
    assert_eq!(6, al.score());
    assert_eq!("TTACGTT", text(al.a_orig()));
    assert_eq!("GGACGGG", text(al.b_orig()));
    assert_eq!(al.distance(), Ok(Distance { numerator: 0, denominator: 6 }));
}

#[test]
fn local_alignment_may_hold_gaps() {
    let al = local("ACACACTA", "AGCACACA", scoring(2, -1, 1, 1)).unwrap();
    assert_eq!("A-CACACTA", text(al.a()));
    assert_eq!("AGCACAC-A", text(al.b()));
    assert_eq!(12, al.score());
    assert_eq!(al.distance(), Ok(Distance { numerator: 4, denominator: 18 }));
}

#[test]
fn local_fills_the_whole_grid() {
    let al = local("ACACACTA", "AGCACACA", scoring(2, -1, 1, 1)).unwrap();
    let expected: Vec<Vec<i128>> = vec![
        vec![0, 0, 0, 0, 0, 0, 0, 0, 0],
        vec![0, 2, 1, 2, 1, 2, 1, 0, 2],
        vec![0, 1, 1, 1, 1, 1, 1, 0, 1],
        vec![0, 0, 3, 2, 3, 2, 3, 2, 1],
        vec![0, 2, 2, 5, 4, 5, 4, 3, 4],
        vec![0, 1, 4, 4, 7, 6, 7, 6, 5],
        vec![0, 2, 3, 6, 6, 9, 8, 7, 8],
        vec![0, 1, 4, 5, 8, 8, 11, 10, 9],
        vec![0, 2, 3, 6, 7, 10, 10, 10, 12],
    ];
    assert_eq!(expected, values(&al));
}

#[test]
fn local_grid_has_no_negative_cell_and_links_only_from_positive_cells() {
    for (a, b) in [("ACGT", "TGCA"), ("AAAA", "CCCC"), ("GATTACA", "GCATGCT"), ("A", "A")] {
        let al = local(a, b, scoring(1, -2, 3, 1)).unwrap();
        assert!(al.score() >= 0);
        for row in al.grid() {
            for c in row {
                assert!(c.val() >= 0);
                if c.next().is_some() {
                    assert!(c.val() > 0);
                }
                if c.i() == 0 || c.j() == 0 {
                    assert_eq!(c.val(), 0);
                    assert_eq!(c.next(), None);
                }
            }
        }
    }
}

#[test]
fn local_without_a_match_aligns_nothing() {
    let al = local("A", "C", scoring(1, -1, 2, 1)).unwrap();
    assert_eq!("", text(al.a()));
    assert_eq!("", text(al.b()));
    assert_eq!(0, al.score());
    assert_eq!(al.distance(), Err(AlignError::EmptyComparison));
    assert_eq!("\n", text(&al.render()));
}

#[test]
fn local_takes_the_first_of_equal_best_cells() {
    let al = local("ACTTAC", "AC", scoring(2, -1, 2, 1)).unwrap();
    assert_eq!(4, al.score());
    assert_eq!(al.grid()[2][2].val(), 4);
    assert_eq!(al.grid()[2][6].val(), 4);
    assert_eq!("AC", text(al.a()));
    assert_eq!("AC", text(al.b()));
}

#[test]
fn best_cell_is_the_first_of_the_highest() {
    let grid = vec![
        vec![Step::from(0, 0, 1), Step::from(0, 1, 5), Step::from(0, 2, 5)],
        vec![Step::from(1, 0, 5), Step::from(1, 1, 2), Step::from(1, 2, 5)],
    ];
    assert_eq!(best_cell(&grid, 2, 3), (0, 1));
    let grid = vec![
        vec![Step::from(0, 0, -4), Step::from(0, 1, -9)],
        vec![Step::from(1, 0, -3), Step::from(1, 1, -3)],
        vec![Step::from(2, 0, -3), Step::from(2, 1, -8)],
    ];
    assert_eq!(best_cell(&grid, 3, 2), (1, 0));
    let grid = vec![vec![Step::from(0, 0, 0)]];
    assert_eq!(best_cell(&grid, 1, 1), (0, 0));
}

#[test]
fn empty_input_is_refused() {
    assert_eq!(failure(global("", "ACGT", scoring(1, -1, 2, 1))), AlignError::EmptyInput);
    assert_eq!(failure(global("ACGT", "", scoring(1, -1, 2, 1))), AlignError::EmptyInput);
    assert_eq!(failure(global("", "", scoring(1, -1, 2, 1))), AlignError::EmptyInput);
    assert_eq!(failure(local("", "ACGT", scoring(1, -1, 2, 1))), AlignError::EmptyInput);
    assert_eq!(failure(local("ACGT", "", scoring(1, -1, 2, 1))), AlignError::EmptyInput);
    assert_eq!(failure(local("", "", scoring(1, -1, 2, 1))), AlignError::EmptyInput);
}

#[test]
fn empty_input_is_reported_before_an_unknown_symbol() {
    assert_eq!(failure(global("", "NNN", scoring(1, -1, 2, 1))), AlignError::EmptyInput);
    assert_eq!(failure(local("NNN", "", scoring(1, -1, 2, 1))), AlignError::EmptyInput);
}

#[test]
fn unknown_symbol_is_refused() {
    for (a, b) in [
        ("ACGU", "ACGT"),
        ("ACGT", "NCGT"),
        ("ACGT", "ACGN"),
        ("N", "A"),
        ("A", "N"),
        ("acgt", "ACGT"),
        ("AC-T", "ACGT"),
        ("ACGTN", "A"),
        ("A", "ACGTN"),
    ] {
        assert_eq!(failure(global(a, b, scoring(1, -1, 2, 1))), AlignError::UnknownSymbol);
        assert_eq!(failure(local(a, b, scoring(1, -1, 2, 1))), AlignError::UnknownSymbol);
    }
}

#[test]
fn runs_on_the_same_input_agree() {
    for (a, b) in [("GATTACA", "GCATGCT"), ("ACGT", "TGCA"), ("AAAC", "CAAA")] {
        let first = global(a, b, scoring(1, -1, 2, 1)).unwrap();
        let second = global(a, b, scoring(1, -1, 2, 1)).unwrap();
        assert_eq!(first.a(), second.a());
        assert_eq!(first.b(), second.b());
        assert_eq!(first.score(), second.score());
        assert_eq!(first.render_grid(), second.render_grid());
        let first = local(a, b, scoring(1, -1, 2, 1)).unwrap();
        let second = local(a, b, scoring(1, -1, 2, 1)).unwrap();
        assert_eq!(first.a(), second.a());
        assert_eq!(first.b(), second.b());
        assert_eq!(first.score(), second.score());
        assert_eq!(first.render_grid(), second.render_grid());
    }
}

#[test]
fn a_second_run_of_one_aligner_gives_the_same_result() {
    let mut nw = NeedlemanWunsch::new(bytes("ACGTT"), bytes("AGT"), scoring(1, -1, 2, 1));
    let first = nw.align().unwrap();
    let second = nw.align().unwrap();
    assert_eq!(first.render_grid(), second.render_grid());
    assert_eq!(first.score(), second.score());
}

#[test]
fn aligned_result_renders_its_grid() {
    let al = global("AGC", "CG", scoring(1, -1, 1, 1)).unwrap();
    assert_eq!(
        "AGC
CG-
   |    | A  | G  | C  |
   | 0  | -1 | -2 | -3 |
C  | -1 | -1 | -2 | -1 |
G  | -2 | -2 | 0  | -1 |
",
        text(&al.render_grid())
    );
    assert_eq!("AGC\nCG-", text(&al.render()));
}

#[test]
fn fill_grid_of_an_empty_sequence_is_the_boundary() {
    let s = scoring(1, -1, 4, 1);
    let grid = fill_grid(Variant::Global, &bytes("NNN"), &bytes(""), &s).unwrap();
    assert_eq!(grid.len(), 1);
    let row: Vec<i128> = grid[0].iter().map(|c| c.val()).collect();
    assert_eq!(row, vec![0, -4, -5, -6]);
    let grid = fill_grid(Variant::Local, &bytes(""), &bytes("NN"), &s).unwrap();
    assert_eq!(grid.len(), 3);
    for (i, row) in grid.iter().enumerate() {
        assert_eq!(row.len(), 1);
        assert_eq!(row[0], Step::from(i, 0, 0));
        assert_eq!(row[0].next(), None);
    }
}

#[test]
fn fill_grid_fails_on_a_pair_without_a_score() {
    let s = scoring(1, -1, 4, 1);
    assert_eq!(
        fill_grid(Variant::Global, &bytes("ACN"), &bytes("A"), &s).err(),
        Some(AlignError::UnknownSymbol)
    );
    assert_eq!(
        fill_grid(Variant::Local, &bytes("A"), &bytes("AXA"), &s).err(),
        Some(AlignError::UnknownSymbol)
    );
}

#[test]
fn extending_a_gap_costs_the_extension_penalty() {
    let s = scoring(2, -5, 4, 1);
    let grid = fill_grid(Variant::Global, &bytes("AT"), &bytes("ACCCT"), &s).unwrap();
    let column: Vec<i128> = grid.iter().map(|row| row[1].val()).collect();
    assert_eq!(column, vec![-4, 2, -2, -3, -4, -5]);
    assert_eq!(grid[5][2].val(), -2);
    let pair = traceback(&grid, &bytes("AT"), &bytes("ACCCT"), 5, 2);
    assert_eq!("A---T", text(&pair.0));
    assert_eq!("ACCCT", text(&pair.1));
}

#[test]
fn traceback_follows_the_backpointers() {
    let grid = vec![
        vec![Step::from(0, 0, 0), Step::from(0, 1, 0).linked_to(0, 0), Step::from(0, 2, 0)],
        vec![
            Step::from(1, 0, 0),
            Step::from(1, 1, 0).linked_to(0, 1),
            Step::from(1, 2, 0).linked_to(0, 1),
        ],
        vec![
            Step::from(2, 0, 0),
            Step::from(2, 1, 0),
            Step::from(2, 2, 0).linked_to(1, 2),
        ],
    ];
    let pair = traceback(&grid, &bytes("XY"), &bytes("PQ"), 2, 2);
    assert_eq!("XY-", text(&pair.0));
    assert_eq!("-PQ", text(&pair.1));
    let pair = traceback(&grid, &bytes("XY"), &bytes("PQ"), 1, 1);
    assert_eq!("X-", text(&pair.0));
    assert_eq!("-P", text(&pair.1));
    let pair = traceback(&grid, &bytes("XY"), &bytes("PQ"), 2, 1);
    assert_eq!("", text(&pair.0));
    assert_eq!("", text(&pair.1));
}

#[test]
fn traceback_stops_at_a_backpointer_to_a_cell_that_is_no_neighbour() {
    let grid = vec![
        vec![Step::from(0, 0, 0), Step::from(0, 1, 0).linked_to(0, 1)],
        vec![Step::from(1, 0, 0).linked_to(1, 1), Step::from(1, 1, 0).linked_to(1, 0)],
        vec![Step::from(2, 0, 0).linked_to(0, 0), Step::from(2, 1, 0).linked_to(2, 0)],
    ];
    let pair = traceback(&grid, &bytes("X"), &bytes("PQ"), 1, 1);
    assert_eq!("X", text(&pair.0));
    assert_eq!("-", text(&pair.1));
    let pair = traceback(&grid, &bytes("X"), &bytes("PQ"), 2, 1);
    assert_eq!("X", text(&pair.0));
    assert_eq!("-", text(&pair.1));
    let pair = traceback(&grid, &bytes("X"), &bytes("PQ"), 0, 1);
    assert_eq!("", text(&pair.0));
}

#[test]
fn reversed_turns_the_bytes_round() {
    assert_eq!(reversed(&bytes("ACGT-")), bytes("-TGCA"));
    assert_eq!(reversed(&bytes("A")), bytes("A"));
    assert_eq!(reversed(&Vec::new()), Vec::<u8>::new());
}
