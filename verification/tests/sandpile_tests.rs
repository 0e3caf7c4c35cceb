use sandpile::{GridSandpile, GridType, SandpileError};

#[test]
fn id_finite() {
    let s = GridSandpile::neutral(GridType::Finite, (3, 2));
    let g = s.into_grid();
    assert_eq!(g, vec![vec![2, 1, 2], vec![2, 1, 2]]);
}

#[test]
fn id_torus() {
    let s = GridSandpile::neutral(GridType::Toroidal, (3, 2));
    let g = s.into_grid();
    assert_eq!(g, vec![vec![0, 3, 3], vec![2, 1, 1]]);
}

#[test]
fn from_string() {
    let st = "&. \n:.:\n";
    let s = GridSandpile::from_string(GridType::Finite, (3, 2), String::from(st)).unwrap();
    let g = s.into_grid();
    assert_eq!(g, vec![vec![3, 1, 0], vec![2, 1, 2]]);
    let s = GridSandpile::from_string(GridType::Toroidal, (3, 2), String::from(st)).unwrap();
    let g = s.into_grid();
    assert_eq!(g, vec![vec![0, 1, 0], vec![2, 1, 2]]);
}

#[test]
fn display() {
    let g = vec![vec![3, 1, 0], vec![2, 1, 2]];
    let s = GridSandpile::from_grid(GridType::Finite, g.clone()).unwrap();
    assert_eq!(s.to_text(), String::from("&. \n:.:\n"));
    let s = GridSandpile::from_grid(GridType::Toroidal, g).unwrap();
    assert_eq!(s.to_text(), String::from(" . \n:.:\n"));
}

#[test]
fn add() {
    let mut s1 = GridSandpile::from_grid(
        GridType::Finite,
        vec![vec![2, 1, 2], vec![3, 3, 1], vec![2, 3, 1]],
    )
    .unwrap();
    let r = s1.clone();
    let s2 = GridSandpile::from_grid(
        GridType::Finite,
        vec![vec![2, 1, 2], vec![1, 0, 1], vec![2, 1, 2]],
    )
    .unwrap();
    s1.add(&s2).unwrap();
    assert_eq!(s1, r);
    assert_eq!(r.last_topple(), 0);
    assert_eq!(s1.last_topple(), 9);
}

#[test]
fn order() {
    let s = GridSandpile::from_grid(GridType::Finite, vec![vec![3, 3, 3], vec![3, 3, 3]]).unwrap();
    assert_eq!(s.order(), 7);
}

#[test]
fn inverse() {
    let s = GridSandpile::from_grid(GridType::Finite, vec![vec![3, 3, 3], vec![3, 3, 3]]).unwrap();
    let i = GridSandpile::from_grid(GridType::Finite, vec![vec![2, 3, 2], vec![2, 3, 2]]).unwrap();
    assert_eq!(s.inverse(), i);
}

#[test]
fn stable_grid_needs_no_toppling() {
    let g = vec![vec![2, 1], vec![0, 3]];
    let s = GridSandpile::from_grid(GridType::Finite, g.clone()).unwrap();
    assert_eq!(s.last_topple(), 0);
    assert_eq!(s.into_grid(), g);
}

#[test]
fn toppling_cascade_count() {
    let s = GridSandpile::from_grid(GridType::Finite, vec![vec![8, 0], vec![0, 0]]).unwrap();
    assert_eq!(s.last_topple(), 2);
    assert_eq!(s.into_grid(), vec![vec![0, 2], vec![2, 0]]);
}

#[test]
fn neutral_is_identity() {
    let mut s = GridSandpile::from_grid(GridType::Finite, vec![vec![3, 3, 3], vec![3, 3, 3]])
        .unwrap();
    let r = s.clone();
    let e = GridSandpile::neutral(GridType::Finite, (3, 2));
    s.add(&e).unwrap();
    assert_eq!(s, r);
}

#[test]
fn inverse_gives_neutral() {
    let mut s = GridSandpile::from_grid(GridType::Finite, vec![vec![3, 3, 3], vec![3, 3, 3]])
        .unwrap();
    let inv = s.inverse();
    s.add(&inv).unwrap();
    assert_eq!(s, GridSandpile::neutral(GridType::Finite, (3, 2)));
}

#[test]
fn order_consistency() {
    let s = GridSandpile::from_grid(GridType::Finite, vec![vec![3, 3, 3], vec![3, 3, 3]]).unwrap();
    let n = s.order();
    assert_eq!(n, 7);
    let mut acc = s.clone();
    for _ in 0..n {
        acc.add(&s).unwrap();
    }
    assert_eq!(acc, s);
    let mut acc = s.clone();
    acc.add(&s).unwrap();
    let mut count = 1;
    while acc != s {
        acc.add(&s).unwrap();
        count += 1;
    }
    assert_eq!(count, n);
}

#[test]
fn toroidal_sink_stays_empty() {
    let mut s = GridSandpile::from_grid(
        GridType::Toroidal,
        vec![vec![9, 3, 3], vec![3, 3, 3], vec![3, 3, 3]],
    )
    .unwrap();
    assert_eq!(s.into_grid()[0][0], 0);
    s = GridSandpile::from_grid(
        GridType::Toroidal,
        vec![vec![0, 3, 3], vec![3, 3, 3], vec![3, 3, 3]],
    )
    .unwrap();
    let inv = s.inverse();
    assert_eq!(inv.grid_type(), GridType::Toroidal);
    assert_eq!(inv.clone().into_grid()[0][0], 0);
    s.add(&inv).unwrap();
    assert_eq!(s.into_grid()[0][0], 0);
    let e = GridSandpile::neutral(GridType::Toroidal, (3, 3));
    assert_eq!(e.into_grid()[0][0], 0);
}

#[test]
fn empty_grid_error() {
    let r = GridSandpile::from_grid(GridType::Finite, vec![]);
    assert!(matches!(r, Err(SandpileError::EmptyGrid)));
}

#[test]
fn empty_first_row_error() {
    let r = GridSandpile::from_grid(GridType::Finite, vec![vec![], vec![1]]);
    match r {
        Err(e) => {
            assert!(matches!(e, SandpileError::EmptyFirstRow(_)));
            assert_eq!(e.into_grid(), Some(vec![vec![], vec![1]]));
        }
        Ok(_) => panic!("expected an error"),
    }
}

#[test]
fn ragged_rows_error() {
    let r = GridSandpile::from_grid(GridType::Finite, vec![vec![1, 2], vec![3]]);
    match r {
        Err(SandpileError::UnequalRowLengths(g, expected, row, got)) => {
            assert_eq!(g, vec![vec![1, 2], vec![3]]);
            assert_eq!(expected, 2);
            assert_eq!(row, 1);
            assert_eq!(got, 1);
        }
        _ => panic!("expected a ragged-rows error"),
    }
}

#[test]
fn type_mismatch_error() {
    let mut a = GridSandpile::from_grid(GridType::Finite, vec![vec![1]]).unwrap();
    let b = GridSandpile::from_grid(GridType::Toroidal, vec![vec![0, 1], vec![1, 1]]).unwrap();
    let r = a.add(&b);
    assert!(matches!(r, Err(SandpileError::UnequalTypes(_, _))));
}

#[test]
fn dimension_mismatch_error() {
    let mut a = GridSandpile::from_grid(GridType::Finite, vec![vec![1]]).unwrap();
    let b = GridSandpile::from_grid(GridType::Finite, vec![vec![1, 2]]).unwrap();
    let r = a.add(&b);
    assert!(matches!(r, Err(SandpileError::UnequalDimensions(1, 1, 1, 2))));
}

#[test]
fn unknown_glyph_error() {
    let r = GridSandpile::from_string(GridType::Finite, (2, 1), String::from(".x\n"));
    assert!(matches!(r, Err(SandpileError::UnknownSymbol('x'))));
    let r = GridSandpile::from_string(GridType::Finite, (2, 1), String::from(".\rx\n"));
    assert!(matches!(r, Err(SandpileError::UnknownSymbol('\r'))));
}

#[test]
fn crlf_lines_parse() {
    let s = GridSandpile::from_string(GridType::Finite, (2, 2), String::from(".:\r\n&#\r\n"))
        .unwrap();
    assert_eq!(s.into_grid(), vec![vec![2, 3], vec![0, 1]]);
}

#[test]
fn parsed_size_must_match() {
    let r = GridSandpile::from_string(GridType::Finite, (3, 3), String::from("&. \n:.:\n"));
    assert!(matches!(
        r,
        Err(SandpileError::UnequalDimensions(3, 3, 2, 3))
    ));
}

#[test]
fn error_grid_recovery() {
    let r = GridSandpile::from_grid(GridType::Finite, vec![]);
    assert_eq!(r.unwrap_err().into_grid(), None);
    let r = GridSandpile::from_string(GridType::Finite, (1, 1), String::from("x"));
    assert_eq!(r.unwrap_err().into_grid(), None);
}

#[test]
fn png_bytes_are_encoded() {
    let grid = vec![vec![0, 1], vec![2, 3]];
    let data = sandpile::png_data(&grid).unwrap();
    assert_eq!(&data[0..8], &[137, 80, 78, 71, 13, 10, 26, 10]);
    assert_ne!(data.len(), 16);
}

#[test]
fn error_messages() {
    let r = GridSandpile::from_grid(GridType::Finite, vec![vec![1, 2], vec![3]]);
    assert_eq!(
        r.unwrap_err().message(),
        "Sandpile grid does not represent rectangular matrix: initial row has length 2, row 1 has length 1."
    );
    let mut a = GridSandpile::from_grid(GridType::Finite, vec![vec![1]]).unwrap();
    let b = GridSandpile::from_grid(GridType::Toroidal, vec![vec![0, 1], vec![1, 1]]).unwrap();
    assert_eq!(
        a.add(&b).unwrap_err().message(),
        "Adding sandpiles on grids of different types: Finite and Toroidal."
    );
    let r = GridSandpile::from_string(GridType::Finite, (1, 1), String::from("q"));
    assert_eq!(
        r.unwrap_err().message(),
        "Unknown symbol in the text representation of a sandpile: q"
    );
    let r = GridSandpile::from_grid(GridType::Finite, vec![]);
    assert_eq!(
        r.unwrap_err().message(),
        "Attempt to build a sandpile upon zero-size grid."
    );
    let mut a = GridSandpile::from_grid(GridType::Finite, vec![vec![1]]).unwrap();
    let b = GridSandpile::from_grid(GridType::Finite, vec![vec![1, 2]]).unwrap();
    assert_eq!(
        a.add(&b).unwrap_err().message(),
        "Incorrect dimensions of sandpile grids: expected 1x1, got 1x2."
    );
    let r = GridSandpile::from_grid(GridType::Finite, vec![vec![], vec![1]]);
    assert_eq!(r.unwrap_err().message(), "Sandpile grid has empty initial row.");
}
