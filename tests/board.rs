use nqueens::{BoardError, NQueens};

fn board_of(rows: &[usize]) -> NQueens {
NQueens::from_rows(rows).unwrap()
}

#[test]
fn test_valid_1() {
    let q = board_of(&[1,3,0,2]);
    // X X Q X
    // Q X X X
    // X X X Q
    // X Q X X

    assert!(q.is_valid() == true);
    let count = q.count_conflicts();
    assert!(count == 0, "{} != 0", count);
}

#[test]
fn test_valid_2() {
    let q = board_of(&[2,0,3,1]);
    // X Q X X
    // X X X Q
    // Q X X X
    // X X Q X

    assert!(q.is_valid() == true);
    let count = q.count_conflicts();
    assert!(count == 0, "{} != 0", count);
}

#[test]
fn test_valid_3() {
    let q = board_of(&[2,0,3,1,4]);
    // X Q X X X
    // X X X Q X
    // Q X X X X
    // X X Q X X
    // X X X X Q

    assert!(q.is_valid() == true);
    let count = q.count_conflicts();
    assert!(count == 0, "{} != 0", count);
}

#[test]
fn test_valid_4() {
    let q = board_of(&[1,4,2,0,3]);
    // X X X Q X
    // Q X X X X
    // X X Q X X
    // X X X X Q
    // X Q X X X

    assert!(q.is_valid() == true);
    let count = q.count_conflicts();
    assert!(count == 0, "{} != 0", count);
}

// of course we have to test an actual 8 queens
#[test]
fn test_valid_5() {
    let q = board_of(&[3,5,7,1,6,0,2,4]);
   // X X X X X Q X X
   // X X X Q X X X X
   // X X X X X X Q X
   // Q X X X X X X X
   // X X X X X X X Q
   // X Q X X X X X X
   // X X X X Q X X X
   // X X Q X X X X X

    assert!(q.is_valid() == true);
    let count = q.count_conflicts();
    assert!(count == 0, "{} != 0", count);
}

// and another nonsymmetric one
#[test]
fn test_valid_6() {
    let q = board_of(&[7,1,4,2,0,6,3,5]);
    // X X X X Q X X X
    // X Q X X X X X X
    // X X X Q X X X X
    // X X X X X X Q X
    // X X Q X X X X X
    // X X X X X X X Q
    // X X X X X Q X X
    // Q X X X X X X X

    assert!(q.is_valid() == true);
    let count = q.count_conflicts();
    assert!(count == 0, "{} != 0", count);
}


#[test]
fn test_horizontals_1() {
    let q = board_of(&[0,0]);
    // Q Q
    // X X
    assert!(q.is_valid() == false);
    let count = q.count_conflicts();
    assert!(count == 1, "{} != 1", count);
}

#[test]
fn test_horizontals_2() {
    let q = board_of(&[1,1]);
    // X X
    // Q Q
    assert!(q.is_valid() == false);
    let count = q.count_conflicts();
    assert!(count == 1, "{} != 1", count);
}

#[test]
fn test_horizontals_3() {
    let q = board_of(&[0,2,0]);
    // Q X Q
    // X X X
    // X Q X
    assert!(q.is_valid() == false);
    let count = q.count_conflicts();
    assert!(count == 1, "{} != 1", count);
}

#[test]
fn test_horizontals_4() {
    let q = board_of(&[1,3,0,5,1,4]);
    // X X Q X X X
    // Q X X X Q X
    // X X X X X X
    // X Q X X X X
    // X X X X X Q
    // X X X Q X X
    assert!(q.is_valid() == false);
    let count = q.count_conflicts();
    assert!(count == 2, "{} != 2", count);
}

#[test]
fn test_horizontals_5() {
    let mut q = NQueens::new_empty(6);
    q.set(0, 0).unwrap(); // Q Q Q Q Q Q
    q.set(1, 0).unwrap(); // X X X X X X
    q.set(2, 0).unwrap(); // X X X X X X
    q.set(3, 0).unwrap(); // X X X X X X
    q.set(4, 0).unwrap(); // X X X X X X
    q.set(5, 0).unwrap(); // X X X X X X
    assert!(q.is_valid() == false);
    let count = q.count_conflicts();
    assert!(count == 5+4+3+2+1, "{} != 15", count);
}

#[test]
fn test_diagonals_1() {
    let q = board_of(&[0,1]);
    // Q X
    // X Q
    assert!(q.is_valid() == false);
    let count = q.count_conflicts();
    assert!(count == 1, "{} != 1", count);
}

#[test]
fn test_diagonals_2() {
    let q = board_of(&[1,0]);
    // X Q
    // Q X
    assert!(q.is_valid() == false);
    let count = q.count_conflicts();
    assert!(count == 1, "{} != 1", count);
}

#[test]
fn test_diagonals_3() {
    let q = board_of(&[0,2,1]);
    // Q X X
    // X X Q
    // X Q X
    assert!(q.is_valid() == false);
    let count = q.count_conflicts();
    assert!(count == 1, "{} != 1", count);
}

#[test]
fn test_diagonals_4() {
    let q = board_of(&[2,0,4,1,3]);
    // X Q X X X
    // X X X Q X
    // Q X X X X
    // X X X X Q
    // X X Q X X
    assert!(q.is_valid() == false);
    let count = q.count_conflicts();
    assert!(count == 2, "{} != 2", count);
}

#[test]
fn test_diagonals_5() {
    let q = board_of(&[3,1,4,0,2]);
    // X X X Q X
    // X Q X X X
    // X X X X Q
    // Q X X X X
    // X X Q X X
    assert!(q.is_valid() == false);
    let count = q.count_conflicts();
    assert!(count == 2, "{} != 2", count);
}

#[test]
fn test_diagonals_6() {
    let q = board_of(&[0,1,2,3,4]);
    // Q X X X X
    // X Q X X X
    // X X Q X X
    // X X X Q X
    // X X X X Q
    assert!(q.is_valid() == false);
    let count = q.count_conflicts();
    assert!(count == 4+3+2+1, "{} != 10", count);
}

#[test]
fn test_diagonals_7() {
    let q = board_of(&[0,1,2,1,0]);
    // Q X X X Q
    // X Q X Q X
    // X X Q X X
    // X X X X X
    // X X X X X
    assert!(q.is_valid() == false);
    let count = q.count_conflicts();
    assert!(count == (1+2)+(1+1)+(0+2)+(0+1), "{} != 8", count);
}

#[test]
fn test_diagonals_8() {
    let q = board_of(&[0,1,2,3,4,1,0,7]);
    // Q X X X X X Q X
    // X Q X X X Q X X
    // X X Q X X X X X
    // X X X Q X X X X
    // X X X X Q X X X
    // X X X X X X X X
    // X X X X X X X X
    // X X X X X X X Q

    assert!(q.is_valid() == false);
    let count = q.count_conflicts();
    assert!(count == (1+5)+(1+4)+(0+3)+(0+4)+(0+1)+(0+1)+(0+0)+(0+0), "{} != 20", count);
}

#[test]
fn test_conflicts_none_between() {
    // Q X Q
    // X X X
    // X X X
    let mut q = board_of(&[0, 0, 0]);
    q.unset(1);

    assert!(q.is_valid() == false);

    let count = q.count_conflicts();
    assert!(count == 1, "{} != 1", count);

}
#[test]
fn test_none_1() {
    let q = NQueens::new_empty(3);
    assert!(q.is_valid() == false);
    let count = q.count_conflicts();
    assert!(count == 0, "{} != 0", count);
}

#[test]
fn test_none_2() {
    let mut q = board_of(&[0,2,0]);
    q.unset(2);
    // Q X X
    // X X X
    // X Q X
    
    assert!(q.is_valid() == false);
    let count = q.count_conflicts();
    assert!(count == 0, "{} != 0", count);
}

#[test]
fn test_iter_empty() {
    let q = NQueens::new_empty(0);
    assert!(q.iter().next() == None);
    let count = q.count_conflicts();
    assert!(count == 0, "{} != 0", count);
}

#[test]
fn test_iter_1() {
    let q = board_of(&[2,0,3,1]);

    let mut qiter = q.iter();
    assert!(qiter.next() == Some(q.get_option_ref(0)));
    assert!(qiter.next() == Some(q.get_option_ref(1)));
    assert!(qiter.next() == Some(q.get_option_ref(2)));
    assert!(qiter.next() == Some(q.get_option_ref(3)));
    assert!(qiter.next() == None);

    let mut qiter = q.iter();
    assert!(qiter.next().unwrap().unwrap() == 2);
    assert!(qiter.next().unwrap().unwrap() == 0);
    assert!(qiter.next().unwrap().unwrap() == 3);
    assert!(qiter.next().unwrap().unwrap() == 1);
    assert!(qiter.next() == None);
}

#[test]
fn set_option_fills_columns() {
    let mut b = NQueens::new_empty(4);

    for i in 0..4 {
        b.set_option(i, Some(3 - i)).unwrap();
    }

    assert!(b.get(0) == 3);
    assert!(b.get(1) == 2);
    assert!(b.get(2) == 1);
    assert!(b.get(3) == 0);
    assert!(b.set_option(0, Some(4)) == Err(BoardError::OutOfRange));
    assert!(b.get(0) == 3);
}

#[test]
fn test_intoiter() {
    let b = NQueens::new_random(4);

    let mut i = 0;
    for q in &b {
        assert!(q.unwrap() == b.get(i));
        i += 1;
    }
}

#[test]
fn iter_agrees_with_get() {
    let b = NQueens::new_random(4);

    let mut i = 0;
    for q in b.iter() {
        assert!(q.unwrap() == b.get(i));
        assert!(*b.get_ref(i) == b.get(i));
        assert!(b.is_set(i));
        i += 1;
    }
    assert!(i == 4);
}

#[test]
fn set_option_then_iter() {
    let mut b = NQueens::new_empty(4);

    for i in 0..4 {
        b.set_option(i, Some(i)).unwrap();
    }

    let mut i = 0;
    for q in b.iter() {
        assert!(q.unwrap() == b.get(i));
        i += 1;
    }
}

#[test]
#[should_panic]
fn test_from_impl_fail() {
    let v = vec![1,2,3,4,5];
    let _ = NQueens::from_rows(&v).unwrap();
}

#[test]
fn from_rows_out_of_range() {
    let v = vec![1, 2, 3, 4, 5];
    assert!(NQueens::from_rows(&v).err() == Some(BoardError::OutOfRange));
    assert!(NQueens::from_rows(&[0, 1, 2, 3, 4]).is_ok());
    assert!(NQueens::from_rows(&[]).unwrap().size() == 0);
}

#[test]
fn set_out_of_range_leaves_board() {
    let mut q = board_of(&[1, 3, 0, 2]);
    assert!(q.set(4, 0) == Err(BoardError::OutOfRange));
    assert!(q.set(0, 4) == Err(BoardError::OutOfRange));
    assert!(q.set_option(4, None) == Err(BoardError::OutOfRange));
    assert!(q.get(0) == 1);
    assert!(q.set(0, 3) == Ok(()));
    assert!(q.get(0) == 3);
    assert!(q.get_option(0) == Some(3));
}

#[test]
fn unset_and_is_set() {
    let mut q = board_of(&[1, 3, 0, 2]);
    assert!(q.is_set(2));
    q.unset(2);
    assert!(!q.is_set(2));
    assert!(q.get_option(2).is_none());
    assert!(q.set_option(2, None) == Ok(()));
    assert!(q.size() == 4);
}

#[test]
fn single_conflicting_pair() {
    let q = board_of(&[0, 0]);
    assert!(q.count_conflicts() == 1);
    assert!(!q.is_valid());
    let q = board_of(&[2, 0, 3, 3]);
    assert!(q.count_conflicts() == 1);
    assert!(!q.is_valid());
}

#[test]
fn same_row_counts_every_pair() {
    let q = board_of(&[0, 0, 0, 0, 0, 0]);
    assert!(q.count_conflicts() == 15);
    let q = board_of(&[3, 3, 3, 3]);
    assert!(q.count_conflicts() == 6);
    let q = board_of(&[0]);
    assert!(q.count_conflicts() == 0);
    assert!(q.is_valid());
}

#[test]
fn valid_board_has_no_conflicts() {
    let q = board_of(&[1, 3, 0, 2]);
    assert!(q.is_valid());
    assert!(q.count_conflicts() == 0);
    let mut partial = board_of(&[1, 3, 0, 2]);
    partial.unset(3);
    assert!(partial.count_conflicts() == 0);
    assert!(!partial.is_valid());
}

#[test]
fn clone_is_independent() {
    let q = board_of(&[1, 3, 0, 2]);
    let mut c = q.clone();
    c.set(0, 0).unwrap();
    c.unset(1);
    c.set_random(2);
    assert!(q.get(0) == 1);
    assert!(q.get(1) == 3);
    assert!(q.get(2) == 0);
    assert!(q.is_valid());
    assert!(c.get(0) == 0);
    assert!(!c.is_set(1));
    assert!(c.get(2) < 4);
}

#[test]
fn random_board_is_full_and_in_range() {
    for size in 0..10 {
        let q = NQueens::new_random(size);
        assert!(q.size() == size);
        for c in 0..size {
            assert!(q.get(c) < size);
        }
    }
    let mut q = NQueens::new_empty(5);
    q.set_random(3);
    assert!(q.get(3) < 5);
    assert!(!q.is_set(0));
}
