use vexillo::bitmask::Bitmask;
use vexillo::compile::{compile, CompiledFlags};
use vexillo::decl::{AddFlagsItem, ConstBlock, DeclareFlagItem, DeclareGroupItem, DeclareItem, GroupItem, RemoveFlagsItem};

fn flag(name: &str) -> GroupItem {
    GroupItem::Declare(DeclareItem::Single(DeclareFlagItem { name: name.to_string(), cfg: false }))
}

fn group(name: &str, items: Vec<GroupItem>) -> GroupItem {
    GroupItem::Declare(DeclareItem::Group(DeclareGroupItem {
        name: Some(name.to_string()),
        cfg: false,
        items,
    }))
}

fn add(names: &[&str]) -> GroupItem {
    GroupItem::Add(AddFlagsItem { flags: names.iter().map(|n| n.to_string()).collect() })
}

fn remove(names: &[&str]) -> GroupItem {
    GroupItem::Remove(RemoveFlagsItem { flags: names.iter().map(|n| n.to_string()).collect() })
}

fn block(items: Vec<GroupItem>) -> ConstBlock {
    ConstBlock {
        items: items
            .into_iter()
            .map(|item| match item {
                GroupItem::Declare(d) => d,
                _ => panic!("only declarations at the top level"),
            })
            .collect(),
    }
}

fn get(c: &CompiledFlags, name: &str) -> Bitmask {
    c.find(&name.to_string()).expect("declared name")
}

fn union(c: &CompiledFlags, names: &[&str]) -> Bitmask {
    let flags: Vec<Bitmask> = names.iter().map(|n| get(c, n)).collect();
    Bitmask::union(&flags, c.singles.len() as u32, c.mask_bits)
}

/// Flags in 32-bit words.
fn flags() -> CompiledFlags {
    let b = block(vec![
        flag("FLAG0"),
        flag("FLAG1"),
        flag("FLAG2"),
        group(
            "GROUP0",
            vec![
                flag("FLAG3"),
                group("SUBGROUP0", vec![flag("FLAG4"), group("SUBGROUP1", vec![flag("FLAG5"), add(&["FLAG0"])])]),
                remove(&["FLAG0"]),
            ],
        ),
    ]);
    compile(&b, 32).expect("valid flags")
}

/// Permissions in 8-bit words.
fn perms() -> CompiledFlags {
    let b = block(vec![group(
        "OWNER",
        vec![
            flag("GRANT_ADMIN"),
            flag("REVOKE_ADMIN"),
            flag("SHUTDOWN_SERVER"),
            flag("CLEAR_LOG"),
            group(
                "ADMIN",
                vec![
                    flag("GRANT_SUPER"),
                    flag("REVOKE_SUPER"),
                    flag("CREATE_CHANNEL"),
                    flag("DELETE_CHANNEL"),
                    flag("RENAME_CHANNEL"),
                    flag("RESTART_SERVER"),
                    group(
                        "SUPER",
                        vec![
                            flag("GRANT_MOD"),
                            flag("REVOKE_MOD"),
                            group(
                                "MOD",
                                vec![
                                    flag("MOD_CHANNELS"),
                                    flag("BAN_USER"),
                                    flag("UNBAN_USER"),
                                    flag("APPROVE_USER"),
                                    group(
                                        "USER",
                                        vec![
                                            flag("USER_CHANNELS"),
                                            group("GUEST", vec![flag("LOBBY"), flag("MESSAGE_MODS")]),
                                        ],
                                    ),
                                ],
                            ),
                        ],
                    ),
                ],
            ),
        ],
    )]);
    compile(&b, 8).expect("valid permissions")
}

#[test]
fn flags_test() {
    let p = perms();
    assert_eq!(p.singles.len(), 19);
    assert_eq!(p.groups.len(), 6);
}

#[test]
fn test_perms() {
    let p = perms();
    let ban1 = union(&p, &["BAN_USER", "UNBAN_USER"]);
    let ban = union(&p, &["BAN_USER", "UNBAN_USER"]);
    assert!(ban.eq(&ban1));
    let owner = get(&p, "OWNER");
    assert!(owner.has_all(&ban));
    assert!(owner.has_all(&get(&p, "MOD")));
    assert!(owner.has_all(&get(&p, "ADMIN")));
    assert!(owner.has_all(&get(&p, "SUPER")));
    assert!(owner.has_all(&get(&p, "USER")));
    assert!(owner.has_all(&get(&p, "GUEST")));
    assert_eq!(ban.count_ones(), 2);
}

#[test]
fn test_consts() {
    let f = flags();
    let single_flag_count = f.singles.len();
    let group_flag_count = f.groups.len();
    assert_eq!(single_flag_count, (f.layout.total_bits - f.layout.padding_bits) as usize);
    assert_eq!(single_flag_count, 6);
    assert_eq!(group_flag_count, 3);
    assert_eq!(single_flag_count + group_flag_count, 9);
    assert_eq!(f.layout.word_count - 1, 0);
    assert_eq!(f.layout.word_count, 1);
    assert_eq!(f.mask_bits, 32);
    assert_eq!(f.layout.total_bits, 32);
    assert_eq!(f.layout.padding_bits as usize, 32 - single_flag_count);
    assert_eq!(f.mask_bits / 8, 4);
    assert_eq!(f.none().to_bytes(vexillo::codec::ByteOrder::LittleEndian).len(), 4);
}

#[test]
fn test_functions() {
    let f = flags();
    let used_bits = f.layout.total_bits - f.layout.padding_bits;
    assert_eq!(f.all().count_ones(), used_bits);
    assert_eq!(f.all().count_zeros(), 0);
    assert_eq!(f.none().count_ones(), 0);
    assert_eq!(f.none().count_zeros(), used_bits);
    assert_eq!(get(&f, "SUBGROUP1").count_ones(), 2);

    let names = ["F0", "F1", "F2", "F3", "F4", "F5", "F6", "F7", "F8", "F9"];
    let b = block(names.iter().map(|n| flag(n)).collect());
    let ff = compile(&b, 8).expect("ten flags");
    assert_eq!(get(&ff, "F0").trailing_zeros(), 0);
    assert_eq!(get(&ff, "F1").trailing_zeros(), 1);
    assert_eq!(get(&ff, "F2").trailing_zeros(), 2);
    assert_eq!(get(&ff, "F3").trailing_zeros(), 3);
    assert_eq!(get(&ff, "F4").trailing_zeros(), 4);

    assert_eq!(get(&ff, "F9").leading_zeros(), 0);
    assert_eq!(get(&ff, "F8").leading_zeros(), 1);
    assert_eq!(get(&ff, "F7").leading_zeros(), 2);
    assert_eq!(get(&ff, "F6").leading_zeros(), 3);
    assert_eq!(get(&ff, "F5").leading_zeros(), 4);
    assert_eq!(get(&ff, "F4").leading_zeros(), 5);
    assert_eq!(get(&ff, "F3").leading_zeros(), 6);
    assert_eq!(get(&ff, "F2").leading_zeros(), 7);
    assert_eq!(get(&ff, "F0").leading_zeros(), 9);

    let first_three = union(&ff, &["F0", "F1", "F2"]);
    let last_three = union(&ff, &["F7", "F8", "F9"]);
    assert_eq!(first_three.trailing_ones(), 3);
    assert_eq!(last_three.leading_ones(), 3);

    let mut built = ff.none();
    built.add(&get(&ff, "F0"));
    built.add(&get(&ff, "F1"));
    built.add(&get(&ff, "F2"));
    assert!(built.eq(&union(&ff, &["F0", "F1", "F2"])));
}

#[test]
fn test_ops() {
    let f = flags();
    let flag = get(&f, "FLAG0").or(&get(&f, "FLAG1"));
    assert!(flag.has_all(&union(&f, &["FLAG0", "FLAG1"])));
}

#[test]
fn nested_removal_wins() {
    let f = flags();
    let g = get(&f, "GROUP0");
    assert!(g.has_all(&union(&f, &["FLAG3", "FLAG4", "FLAG5"])));
    assert!(g.has_none(&get(&f, "FLAG0")));
    assert_eq!(g.count_ones(), 3);
    let sub = get(&f, "SUBGROUP0");
    assert!(sub.has_all(&get(&f, "FLAG0")));
}

#[test]
fn ten_flags_layout() {
    let names = ["F0", "F1", "F2", "F3", "F4", "F5", "F6", "F7", "F8", "F9"];
    let b = block(names.iter().map(|n| flag(n)).collect());
    let ff = compile(&b, 8).expect("ten flags");
    assert_eq!(ff.layout.word_count, 2);
    assert_eq!(ff.layout.total_bits, 16);
    assert_eq!(ff.layout.padding_bits, 6);
    assert_eq!(ff.all().masks, vec![0xff, 0x03]);
}
