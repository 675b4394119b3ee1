use ure::game::assets::{
    is_well_formed_diff, parse_diff, split_fields, Assets, InvalidTree, PathChange, GIT_NULL,
};
use ure::sys::Uids;

fn tree(c: char) -> String {
    std::iter::repeat(c).take(40).collect()
}

#[test]
fn split_fields_follows_nul_bytes() {
    assert_eq!(split_fields(b""), Vec::<Vec<u8>>::new());
    assert_eq!(split_fields(b"\0"), vec![Vec::<u8>::new()]);
    assert_eq!(split_fields(b"ab"), vec![b"ab".to_vec()]);
    assert_eq!(split_fields(b"ab\0"), vec![b"ab".to_vec()]);
    assert_eq!(split_fields(b"a\0\0b"), vec![b"a".to_vec(), vec![], b"b".to_vec()]);
}

#[test]
fn parse_a_diff() {
    let fields = split_fields(b"A\0a.png\0R100\0a.png\0b.png\0M\0c.txt\0C75\0b.png\0d.png\0D\0e.wav\0");
    assert!(is_well_formed_diff(&fields));
    assert_eq!(
        parse_diff(&fields),
        vec![
            PathChange::Added("a.png".to_string()),
            PathChange::Renamed { from: "a.png".to_string(), to: "b.png".to_string() },
            PathChange::Other("c.txt".to_string()),
            PathChange::Copied { from: "b.png".to_string(), to: "d.png".to_string() },
            PathChange::Deleted("e.wav".to_string()),
        ]
    );
}

#[test]
fn malformed_diffs() {
    assert!(is_well_formed_diff(&split_fields(b"")));
    assert!(!is_well_formed_diff(&split_fields(b"A\0")));
    assert!(!is_well_formed_diff(&split_fields(b"\0x\0")));
    assert!(!is_well_formed_diff(&split_fields(b"R100\0a\0")));
    assert!(!is_well_formed_diff(&vec![b"A".to_vec(), vec![0xff, 0xfe]]));
    assert!(!is_well_formed_diff(&vec![b"C".to_vec(), b"a".to_vec(), vec![0xc0]]));
}

#[test]
fn check_tree() {
    let assets = Assets::default();
    assert_eq!(GIT_NULL.len(), 40);
    assert_eq!(assets.check_tree(&GIT_NULL.to_string()), Ok(false));
    assert_eq!(assets.check_tree(&tree('1')), Ok(true));
    assert_eq!(assets.check_tree(&"abc".to_string()), Err(InvalidTree));
    assert_eq!(assets.check_tree(&format!("{}\n", GIT_NULL)), Err(InvalidTree));
}

#[test]
fn update_registers_changes() {
    let mut uids = Uids::new();
    let mut assets = Assets::default();
    assets.update(&mut uids, tree('1'), b"A\0a.png\0A\0x.txt\0");
    assert_eq!(assets.check_tree(&tree('1')), Ok(false));
    let a = assets.uid_of(&"a.png".to_string()).unwrap();
    let x = assets.uid_of(&"x.txt".to_string()).unwrap();
    assert_ne!(a, x);
    assert!(uids.contains(&a) && uids.contains(&x));
    assert_eq!(uids.len(), 2);

    assets.update(&mut uids, tree('2'), b"R100\0a.png\0b.png\0");
    assert_eq!(assets.uid_of(&"b.png".to_string()), Some(a));
    assert_eq!(assets.uid_of(&"a.png".to_string()), None);
    assert_eq!(uids.len(), 2);

    assets.update(&mut uids, tree('3'), b"C90\0b.png\0c.png\0D\0x.txt\0M\0b.png\0");
    let c = assets.uid_of(&"c.png".to_string()).unwrap();
    assert!(c != a && c != x);
    assert_eq!(assets.uid_of(&"b.png".to_string()), Some(a));
    assert_eq!(assets.uid_of(&"x.txt".to_string()), None);
    assert_eq!(uids.len(), 3);
}

#[test]
fn rename_of_an_unknown_path_draws_an_id() {
    let mut uids = Uids::new();
    let mut assets = Assets::default();
    assets.update(&mut uids, tree('1'), b"R050\0old\0new\0");
    let id = assets.uid_of(&"new".to_string()).unwrap();
    assert!(uids.contains(&id));
    assert_eq!(assets.uid_of(&"old".to_string()), None);
}
