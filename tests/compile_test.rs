use vexillo::bitmask::Bitmask;
use vexillo::compile::{compile, CompiledFlags};
use vexillo::decl::{
    verify_sites, AddFlagsItem, ConstBlock, DeclareFlagItem, DeclareGroupItem, DeclareItem, GroupItem,
    RemoveFlagsItem,
};
use vexillo::dep_graph::{lookup, resolve, Target};
use vexillo::error::FlagError;
use vexillo::internal::{const_cmp_str, mask_type_check, ConstCounter, MaskIndex};
use vexillo::shared::{FlagGroupInfo, FlagIndex};

fn single(name: &str) -> DeclareItem {
    DeclareItem::Single(DeclareFlagItem { name: name.to_string(), cfg: false })
}

fn named(name: &str, items: Vec<GroupItem>) -> DeclareItem {
    DeclareItem::Group(DeclareGroupItem { name: Some(name.to_string()), cfg: false, items })
}

fn decl(d: DeclareItem) -> GroupItem {
    GroupItem::Declare(d)
}

fn plus(names: &[&str]) -> GroupItem {
    GroupItem::Add(AddFlagsItem { flags: names.iter().map(|n| n.to_string()).collect() })
}

fn minus(names: &[&str]) -> GroupItem {
    GroupItem::Remove(RemoveFlagsItem { flags: names.iter().map(|n| n.to_string()).collect() })
}

fn get(c: &CompiledFlags, name: &str) -> Bitmask {
    c.find(&name.to_string()).expect("declared name")
}

fn g_with(items: Vec<GroupItem>) -> CompiledFlags {
    let b = ConstBlock { items: vec![single("A"), single("B"), named("G", items)] };
    compile(&b, 8).expect("valid")
}

#[test]
fn additions_before_removals_in_any_order() {
    let orders = vec![
        vec![plus(&["A"]), plus(&["B"]), minus(&["A"])],
        vec![plus(&["B"]), plus(&["A"]), minus(&["A"])],
        vec![minus(&["A"]), plus(&["A"]), plus(&["B"])],
    ];
    for items in orders {
        let c = g_with(items);
        let g = get(&c, "G");
        assert!(g.eq(&get(&c, "B")));
        assert_eq!(g.masks, vec![0b10]);
    }
}

#[test]
fn cycle_is_reported_with_its_groups() {
    let b = ConstBlock {
        items: vec![named("G1", vec![plus(&["G2"])]), named("G2", vec![plus(&["G1"])])],
    };
    match compile(&b, 8) {
        Err(errors) => {
            assert_eq!(errors.len(), 1);
            match &errors[0] {
                FlagError::CyclicGroupReference { names } => {
                    let mut sorted = names.clone();
                    sorted.sort();
                    assert_eq!(sorted, vec!["G1".to_string(), "G2".to_string()]);
                },
                other => panic!("unexpected error {:?}", other),
            }
        },
        Ok(_) => panic!("a cycle must not compile"),
    }
}

#[test]
fn cycle_behind_acyclic_group() {
    let b = ConstBlock {
        items: vec![
            single("F"),
            named("TOP", vec![plus(&["LOOP_A", "F"])]),
            named("LOOP_A", vec![plus(&["LOOP_B"])]),
            named("LOOP_B", vec![plus(&["LOOP_C"])]),
            named("LOOP_C", vec![plus(&["LOOP_A"])]),
        ],
    };
    match compile(&b, 8) {
        Err(errors) => match &errors[0] {
            FlagError::CyclicGroupReference { names } => {
                let mut sorted = names.clone();
                sorted.sort();
                assert_eq!(sorted, vec!["LOOP_A".to_string(), "LOOP_B".to_string(), "LOOP_C".to_string()]);
            },
            other => panic!("unexpected error {:?}", other),
        },
        Ok(_) => panic!("a cycle must not compile"),
    }
}

#[test]
fn forward_references_resolve() {
    let b = ConstBlock {
        items: vec![
            named("LATE", vec![plus(&["EARLY_GROUP", "Z"])]),
            named("EARLY_GROUP", vec![decl(single("X")), decl(single("Y"))]),
            single("Z"),
        ],
    };
    let c = compile(&b, 16).expect("valid");
    assert_eq!(c.singles, vec!["X".to_string(), "Y".to_string(), "Z".to_string()]);
    assert_eq!(get(&c, "LATE").masks, vec![0b111]);
    assert_eq!(get(&c, "EARLY_GROUP").masks, vec![0b011]);
}

#[test]
fn anonymous_group_declares_but_is_no_member() {
    let anon = DeclareItem::Group(DeclareGroupItem { name: None, cfg: false, items: vec![decl(single("INNER"))] });
    let b = ConstBlock { items: vec![named("OUTER", vec![decl(single("OWN")), decl(anon)])] };
    let c = compile(&b, 8).expect("valid");
    assert_eq!(c.singles, vec!["OWN".to_string(), "INNER".to_string()]);
    assert_eq!(c.groups.len(), 1);
    assert_eq!(get(&c, "OUTER").masks, vec![0b01]);
}

#[test]
fn duplicate_names_are_all_reported() {
    let b = ConstBlock {
        items: vec![single("A"), named("G", vec![decl(single("A")), decl(single("B"))]), single("B"), single("A")],
    };
    match compile(&b, 8) {
        Err(errors) => {
            assert_eq!(
                errors,
                vec![
                    FlagError::DuplicateIdentifier { name: "A".to_string(), first: 0, repeat: 2 },
                    FlagError::DuplicateIdentifier { name: "B".to_string(), first: 3, repeat: 4 },
                    FlagError::DuplicateIdentifier { name: "A".to_string(), first: 0, repeat: 5 },
                ]
            );
        },
        Ok(_) => panic!("duplicates must not compile"),
    }
}

#[test]
fn reserved_and_cfg_are_reported() {
    let cfg_flag = DeclareItem::Single(DeclareFlagItem { name: "LATER".to_string(), cfg: true });
    let cfg_anon = DeclareItem::Group(DeclareGroupItem { name: None, cfg: true, items: vec![] });
    let b = ConstBlock { items: vec![single("NONE"), cfg_flag, single("ALL"), cfg_anon] };
    let sites = b.sites();
    let errors = verify_sites(&sites);
    assert_eq!(
        errors,
        vec![
            FlagError::ReservedIdentifier { name: "NONE".to_string(), at: 0 },
            FlagError::ForbiddenAnnotation { name: "LATER".to_string(), at: 1 },
            FlagError::ReservedIdentifier { name: "ALL".to_string(), at: 2 },
            FlagError::ForbiddenAnnotation { name: "_".to_string(), at: 3 },
        ]
    );
    assert!(compile(&b, 8).is_err());
}

#[test]
fn unknown_name_is_reported() {
    let b = ConstBlock { items: vec![single("A"), named("G", vec![plus(&["A", "MISSING"])])] };
    match compile(&b, 8) {
        Err(errors) => assert_eq!(
            errors,
            vec![FlagError::UnknownIdentifier { name: "MISSING".to_string(), group: "G".to_string() }]
        ),
        Ok(_) => panic!("unknown names must not compile"),
    }
}

#[test]
fn too_many_flags() {
    let items: Vec<DeclareItem> = (0..65537).map(|i| single(&format!("F{}", i))).collect();
    let b = ConstBlock { items };
    match compile(&b, 64) {
        Err(errors) => assert_eq!(errors, vec![FlagError::TooManyFlags { singles: 65537, groups: 0 }]),
        Ok(_) => panic!("too many flags must not compile"),
    }
}

#[test]
fn resolve_directly() {
    let singles = vec!["A".to_string(), "B".to_string()];
    let b = ConstBlock { items: vec![single("A"), single("B"), named("G", vec![plus(&["A", "B"]), minus(&["B"])])] };
    let built = b.build();
    assert_eq!(built.singles, singles);
    let values = resolve(&built.singles, &built.groups, 8).expect("valid");
    assert_eq!(values.len(), 1);
    assert_eq!(values[0].masks, vec![0b01]);
    assert_eq!(lookup(&built.singles, &built.groups, &"G".to_string()), Target::Group(0));
    assert_eq!(lookup(&built.singles, &built.groups, &"B".to_string()), Target::Single(1));
    assert_eq!(lookup(&built.singles, &built.groups, &"Q".to_string()), Target::Unknown);
}

#[test]
fn string_compare() {
    assert_eq!(const_cmp_str("abc", "abd"), std::cmp::Ordering::Less);
    assert_eq!(const_cmp_str("abd", "abc"), std::cmp::Ordering::Greater);
    assert_eq!(const_cmp_str("abc", "abc"), std::cmp::Ordering::Equal);
    assert_eq!(const_cmp_str("ab", "abc"), std::cmp::Ordering::Less);
    assert_eq!(const_cmp_str("abc", "ab"), std::cmp::Ordering::Greater);
    assert_eq!(const_cmp_str("", ""), std::cmp::Ordering::Equal);
}

#[test]
fn small_helpers() {
    mask_type_check::<u8>();
    mask_type_check::<u128>();
    let mut counter = ConstCounter::new(5u32);
    assert_eq!(counter.next(), 5);
    counter.incr();
    assert_eq!(counter.next(), 7);
    let mut c8 = ConstCounter::new(0u8);
    assert_eq!(c8.next(), 0);
    assert_eq!(c8.count, 1);
    let idx = MaskIndex::new(70, 32);
    assert_eq!((idx.mask, idx.bit), (2, 6));
    assert_eq!(FlagIndex::new(12).index(), 12usize);
    let info = FlagGroupInfo { bits: 3, index: 1 };
    assert!(info < FlagGroupInfo { bits: 4, index: 0 });
}
