use game_2048_engine::matrix;
use game_2048_engine::slide_cache::{slide_array, SlideCache};

#[test]
fn slide_test1() {
    let a = [0, 1, 0, 1];
    let actual = slide_array(a);
    match actual {
        Some(sl) => {
            assert_eq!(sl.line, matrix::to_u16([2, 0, 0, 0]));
            assert_eq!(sl.score, 4 - 1);
        }
        None => assert!(false),
    }
}

#[test]
fn slide_test2() {
    let a = [1, 1, 1, 1];
    let actual = slide_array(a);
    match actual {
        Some(sl) => {
            assert_eq!(sl.line, matrix::to_u16([2, 2, 0, 0]));
            assert_eq!(sl.score, 8 - 1);
        }
        None => assert!(false),
    }
}

#[test]
fn slide_test3() {
    let a = [2, 2, 1, 1];
    let actual = slide_array(a);
    match actual {
        Some(sl) => {
            assert_eq!(sl.line, matrix::to_u16([3, 2, 0, 0]));
            assert_eq!(sl.score, 12 - 1);
        }
        None => assert!(false),
    }
}

#[test]
fn slide_test4() {
    let a = [2, 0, 0, 0];
    let actual = slide_array(a);
    match actual {
        Some(sl) => {
            assert_eq!(sl.line, matrix::to_u16([2, 0, 0, 0]));
            assert_eq!(sl.score, 0);
        }
        None => assert!(true),
    }
}

#[test]
fn slide_test5() {
    let a = [0, 2, 0, 0];
    let actual = slide_array(a);
    match actual {
        Some(sl) => {
            assert_eq!(sl.line, matrix::to_u16([2, 0, 0, 0]));
            assert_eq!(sl.score, 0);
        }
        None => assert!(false),
    }
}

#[test]
fn serialize_bytes() {
    let cache = SlideCache::create_cache();
    assert!(cache.serialize().is_ok());
}

#[test]
fn deserialize_bytes() {
    let bytes = SlideCache::create_cache().serialize().unwrap();
    let cache = SlideCache::load_cache(&bytes).unwrap();
    let actual = cache.table[matrix::to_u16([2, 2, 1, 1]) as usize];
    assert_eq!(actual.line, matrix::to_u16([3, 2, 0, 0]));
    assert_eq!(actual.score, 12 - 1);
}

#[test]
fn deserialize_bytes2() {
    let bytes = SlideCache::create_cache().serialize().unwrap();
    let cache = SlideCache::load_cache(&bytes).unwrap();
    let actual = cache.table[matrix::to_u16([0, 2, 1, 2]) as usize];
    assert_eq!(actual.line, matrix::to_u16([2, 1, 2, 0]));
    assert_eq!(actual.score, 0);
}

#[test]
fn deserialize_size_bytes() {
    let bytes = SlideCache::create_cache().serialize().unwrap();
    let cache = SlideCache::load_cache(&bytes).unwrap();
    let actual = cache.table.iter().filter(|x| x.line != 0).count();
    assert_eq!(actual, 20443);
}

// The table-lookup transition agrees with the direct slide simulation on
// every one of the 65536 possible rows.
#[test]
fn table_matches_simulation() {
    let cache = SlideCache::create_cache();
    for id in 0..65536usize {
        let mut row = [0u8; 4];
        matrix::from_u16(&mut row, id as u16);
        let entry = cache.table[id];
        match slide_array(row) {
            Some(sl) => {
                assert_eq!(entry.line, sl.line);
                assert_eq!(entry.score, sl.score);
            }
            None => {
                assert_eq!(entry.line, 0);
                assert_eq!(entry.score, 0);
            }
        }
    }
}

// The mirrored codec round-trips every row and feeds the same table for
// rightward slides.
#[test]
fn reversed_codec_round_trip() {
    for id in 0..65536u32 {
        let mut row = [0u8; 4];
        matrix::from_u16_rev(&mut row, id as u16);
        assert_eq!(matrix::to_u16_rev(row), id as u16);
        let mirrored = [row[3], row[2], row[1], row[0]];
        assert_eq!(matrix::to_u16(mirrored), id as u16);
    }
}
