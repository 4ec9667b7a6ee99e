use vstd::prelude::*;
use crate::error::FlagError;

verus! {

/// A single flag declaration: one bit.
pub struct DeclareFlagItem {
    pub name: String,
    /// Whether the declaration carries a conditional-compilation annotation.
    pub cfg: bool,
}

/// A group declaration. Its members are the flags it adds, every flag or
/// named group declared inside it, less the flags it removes. A group
/// without a name declares its inner flags but is no flag itself.
pub struct DeclareGroupItem {
    pub name: Option<String>,
    /// Whether the declaration carries a conditional-compilation annotation.
    pub cfg: bool,
    pub items: Vec<GroupItem>,
}

/// One declaration.
pub enum DeclareItem {
    Single(DeclareFlagItem),
    Group(DeclareGroupItem),
}

/// `+ A | B`: names added to the enclosing group.
pub struct AddFlagsItem {
    pub flags: Vec<String>,
}

/// `- A | B`: names removed from the enclosing group.
pub struct RemoveFlagsItem {
    pub flags: Vec<String>,
}

/// One entry of a group's body.
pub enum GroupItem {
    Add(AddFlagsItem),
    Remove(RemoveFlagsItem),
    Declare(DeclareItem),
}

/// The whole declaration tree of one flag type.
pub struct ConstBlock {
    pub items: Vec<DeclareItem>,
}

/// A group after flattening: its name and the names it adds and removes.
pub struct ConstGroup {
    pub name: String,
    pub additions: Vec<String>,
    pub removals: Vec<String>,
}

/// The flattened declarations: single flags in bit order, and groups with
/// every group declared inside another listed before it.
pub struct ConstBuildResult {
    pub singles: Vec<String>,
    pub groups: Vec<ConstGroup>,
}

/// What the identifier check reads of one declaration.
pub struct DeclSite {
    pub name: Option<String>,
    pub cfg: bool,
}

/// The texts of a sequence of strings.
pub open spec fn names(v: Seq<String>) -> Seq<Seq<char>> {
    v.map_values(|s: String| s@)
}

pub open spec fn opt_name(n: Option<String>) -> Option<Seq<char>> {
    match n {
        Some(s) => Some(s@),
        None => None,
    }
}

/// A flattened group as a value: name, additions, removals.
pub type GroupDef = (Seq<char>, Seq<Seq<char>>, Seq<Seq<char>>);

pub type Site = (Option<Seq<char>>, bool);

impl ConstGroup {
    pub open spec fn def(self) -> GroupDef {
        (self.name@, names(self.additions@), names(self.removals@))
    }
}

pub open spec fn group_defs(v: Seq<ConstGroup>) -> Seq<GroupDef> {
    v.map_values(|g: ConstGroup| g.def())
}

pub open spec fn site_views(v: Seq<DeclSite>) -> Seq<Site> {
    v.map_values(|s: DeclSite| (opt_name(s.name), s.cfg))
}

/// The top-level declarations seen as the body of a group.
pub open spec fn block_items(items: Seq<DeclareItem>) -> Seq<GroupItem> {
    items.map_values(|d: DeclareItem| GroupItem::Declare(d))
}

/// The declaration sites of `item` in pre-order.
pub open spec fn sites_of(item: DeclareItem) -> Seq<Site>
    decreases item,
{
    match item {
        DeclareItem::Single(f) => seq![(Some(f.name@), f.cfg)],
        DeclareItem::Group(g) => seq![(opt_name(g.name), g.cfg)] + sites_of_items(g.items@),
    }
}

pub open spec fn sites_of_items(items: Seq<GroupItem>) -> Seq<Site>
    decreases items,
{
    if items.len() == 0 {
        Seq::empty()
    } else {
        let rest = sites_of_items(items.subrange(0, items.len() - 1));
        match items[items.len() - 1] {
            GroupItem::Declare(d) => rest + sites_of(d),
            _ => rest,
        }
    }
}

/// The single flags declared in `item`, in pre-order.
pub open spec fn singles_of(item: DeclareItem) -> Seq<Seq<char>>
    decreases item,
{
    match item {
        DeclareItem::Single(f) => seq![f.name@],
        DeclareItem::Group(g) => singles_of_items(g.items@),
    }
}

pub open spec fn singles_of_items(items: Seq<GroupItem>) -> Seq<Seq<char>>
    decreases items,
{
    if items.len() == 0 {
        Seq::empty()
    } else {
        let rest = singles_of_items(items.subrange(0, items.len() - 1));
        match items[items.len() - 1] {
            GroupItem::Declare(d) => rest + singles_of(d),
            _ => rest,
        }
    }
}

/// The named groups declared in `item`, each after the groups declared inside it.
pub open spec fn groups_of(item: DeclareItem) -> Seq<GroupDef>
    decreases item,
{
    match item {
        DeclareItem::Single(f) => Seq::empty(),
        DeclareItem::Group(g) => groups_of_items(g.items@) + match g.name {
            Some(n) => seq![(n@, additions_of(g.items@), removals_of(g.items@))],
            None => Seq::empty(),
        },
    }
}

pub open spec fn groups_of_items(items: Seq<GroupItem>) -> Seq<GroupDef>
    decreases items,
{
    if items.len() == 0 {
        Seq::empty()
    } else {
        let rest = groups_of_items(items.subrange(0, items.len() - 1));
        match items[items.len() - 1] {
            GroupItem::Declare(d) => rest + groups_of(d),
            _ => rest,
        }
    }
}

/// The name a declaration gives its enclosing group: its own name, if any.
pub open spec fn member_name(d: DeclareItem) -> Seq<Seq<char>> {
    match d {
        DeclareItem::Single(f) => seq![f.name@],
        DeclareItem::Group(h) => match h.name {
            Some(n) => seq![n@],
            None => Seq::empty(),
        },
    }
}

/// The names a group body adds: the explicit additions and every name
/// declared directly inside it.
pub open spec fn additions_of(items: Seq<GroupItem>) -> Seq<Seq<char>>
    decreases items.len(),
{
    if items.len() == 0 {
        Seq::empty()
    } else {
        let rest = additions_of(items.subrange(0, items.len() - 1));
        match items[items.len() - 1] {
            GroupItem::Add(a) => rest + names(a.flags@),
            GroupItem::Remove(_) => rest,
            GroupItem::Declare(d) => rest + member_name(d),
        }
    }
}

/// The names a group body removes.
pub open spec fn removals_of(items: Seq<GroupItem>) -> Seq<Seq<char>>
    decreases items.len(),
{
    if items.len() == 0 {
        Seq::empty()
    } else {
        let rest = removals_of(items.subrange(0, items.len() - 1));
        match items[items.len() - 1] {
            GroupItem::Remove(r) => rest + names(r.flags@),
            _ => rest,
        }
    }
}

proof fn lemma_decreases_to_member(item: DeclareItem, k: int)
    requires
        item is Group,
        0 <= k < item->Group_0.items@.len(),
        item->Group_0.items@[k] is Declare,
    ensures
        decreases_to!(item => item->Group_0.items@[k]->Declare_0),
{
    let g = item->Group_0;
    assert(decreases_to!(item => g));
    assert(decreases_to!(g => g.items));
    assert(decreases_to!(g.items => g.items@));
    assert(decreases_to!(g.items@ => g.items@[k]));
    assert(decreases_to!(g.items@[k] => g.items@[k]->Declare_0));
}

fn clone_name(n: &Option<String>) -> (r: Option<String>)
    ensures
        opt_name(r) == opt_name(*n),
{
    match n {
        Some(s) => Some(s.clone()),
        None => None,
    }
}

/// Appends copies of `src` to `dst`.
fn extend_names(dst: &mut Vec<String>, src: &Vec<String>)
    ensures
        names(final(dst)@) == names(old(dst)@) + names(src@),
{
    let ghost start = names(dst@);
    let mut k: usize = 0;
    while k < src.len()
        invariant
            k <= src@.len(),
            names(dst@) == start + names(src@.take(k as int)),
        decreases src@.len() - k,
    {
        let ghost before = dst@;
        dst.push(src[k].clone());
        proof {
            assert(names(src@.take(k + 1)) =~= names(src@.take(k as int)).push(src@[k as int]@));
            assert(names(dst@) =~= names(before).push(src@[k as int]@));
        }
        k = k + 1;
    }
    proof {
        assert(src@.take(k as int) =~= src@);
    }
}

/// Appends the declaration sites of `item`, in pre-order.
fn collect_sites(item: &DeclareItem, out: &mut Vec<DeclSite>)
    ensures
        site_views(final(out)@) == site_views(old(out)@) + sites_of(*item),
    decreases item,
{
    let ghost start = site_views(out@);
    match item {
        DeclareItem::Single(f) => {
            out.push(DeclSite { name: Some(f.name.clone()), cfg: f.cfg });
            proof {
                assert(site_views(out@) =~= start + sites_of(*item));
            }
        },
        DeclareItem::Group(g) => {
            out.push(DeclSite { name: clone_name(&g.name), cfg: g.cfg });
            proof {
                assert(site_views(out@) =~= start + seq![(opt_name(g.name), g.cfg)]);
            }
            let mut k: usize = 0;
            while k < g.items.len()
                invariant
                    *item == DeclareItem::Group(*g),
                    k <= g.items@.len(),
                    site_views(out@) == start + seq![(opt_name(g.name), g.cfg)] + sites_of_items(
                        g.items@.take(k as int),
                    ),
                decreases g.items@.len() - k,
            {
                proof {
                    assert(g.items@.take(k + 1).subrange(0, k as int) =~= g.items@.take(k as int));
                }
                match &g.items[k] {
                    GroupItem::Declare(d) => {
                        proof {
                            lemma_decreases_to_member(*item, k as int);
                        }
                        collect_sites(d, out);
                    },
                    _ => {},
                }
                k = k + 1;
            }
            proof {
                assert(g.items@.take(k as int) =~= g.items@);
            }
        },
    }
}

/// Appends the single flags and the groups declared in `item`.
fn build_item(item: &DeclareItem, singles: &mut Vec<String>, groups: &mut Vec<ConstGroup>)
    ensures
        names(final(singles)@) == names(old(singles)@) + singles_of(*item),
        group_defs(final(groups)@) == group_defs(old(groups)@) + groups_of(*item),
    decreases item,
{
    let ghost singles0 = names(singles@);
    let ghost groups0 = group_defs(groups@);
    match item {
        DeclareItem::Single(f) => {
            singles.push(f.name.clone());
            proof {
                assert(names(singles@) =~= singles0 + singles_of(*item));
                assert(groups_of(*item) =~= Seq::<GroupDef>::empty());
                assert(group_defs(groups@) =~= groups0 + groups_of(*item));
            }
        },
        DeclareItem::Group(g) => {
            let mut additions: Vec<String> = Vec::new();
            let mut removals: Vec<String> = Vec::new();
            let mut k: usize = 0;
            while k < g.items.len()
                invariant
                    *item == DeclareItem::Group(*g),
                    k <= g.items@.len(),
                    names(singles@) == singles0 + singles_of_items(g.items@.take(k as int)),
                    group_defs(groups@) == groups0 + groups_of_items(g.items@.take(k as int)),
                    names(additions@) == additions_of(g.items@.take(k as int)),
                    names(removals@) == removals_of(g.items@.take(k as int)),
                decreases g.items@.len() - k,
            {
                proof {
                    assert(g.items@.take(k + 1).subrange(0, k as int) =~= g.items@.take(k as int));
                }
                match &g.items[k] {
                    GroupItem::Add(a) => {
                        extend_names(&mut additions, &a.flags);
                    },
                    GroupItem::Remove(r) => {
                        extend_names(&mut removals, &r.flags);
                    },
                    GroupItem::Declare(d) => {
                        proof {
                            lemma_decreases_to_member(*item, k as int);
                        }
                        build_item(d, singles, groups);
                        match d {
                            DeclareItem::Single(f) => {
                                additions.push(f.name.clone());
                            },
                            DeclareItem::Group(h) => {
                                match &h.name {
                                    Some(n) => {
                                        additions.push(n.clone());
                                    },
                                    None => {},
                                }
                            },
                        }
                    },
                }
                proof {
                    assert(names(additions@) =~= additions_of(g.items@.take(k + 1)));
                    assert(names(removals@) =~= removals_of(g.items@.take(k + 1)));
                }
                k = k + 1;
            }
            proof {
                assert(g.items@.take(k as int) =~= g.items@);
            }
            match &g.name {
                Some(n) => {
                    let ghost before = groups@;
                    let ghost adds = names(additions@);
                    let ghost rems = names(removals@);
                    groups.push(ConstGroup { name: n.clone(), additions, removals });
                    proof {
                        assert(group_defs(groups@) =~= group_defs(before).push((n@, adds, rems)));
                        assert(adds == additions_of(g.items@));
                        assert(rems == removals_of(g.items@));
                        assert(group_defs(groups@) =~= groups0 + groups_of(*item));
                    }
                },
                None => {
                    proof {
                        assert(group_defs(groups@) =~= groups0 + groups_of(*item));
                    }
                },
            }
        },
    }
}

impl ConstBlock {
    /// The top-level declarations as the body of a group.
    pub open spec fn body(self) -> Seq<GroupItem> {
        block_items(self.items@)
    }

    proof fn lemma_body_step(self, k: int)
        requires
            0 <= k < self.items@.len(),
        ensures
            block_items(self.items@.take(k + 1)).subrange(0, k) == block_items(self.items@.take(k)),
            block_items(self.items@.take(k + 1))[k] == GroupItem::Declare(self.items@[k]),
            block_items(self.items@.take(k + 1)).len() == k + 1,
    {
        assert(block_items(self.items@.take(k + 1)).subrange(0, k) =~= block_items(
            self.items@.take(k),
        ));
    }

    /// The declaration sites of the whole tree, in pre-order.
    pub fn sites(&self) -> (r: Vec<DeclSite>)
        ensures
            site_views(r@) == sites_of_items(self.body()),
    {
        let mut out: Vec<DeclSite> = Vec::new();
        let mut k: usize = 0;
        while k < self.items.len()
            invariant
                k <= self.items@.len(),
                site_views(out@) == sites_of_items(block_items(self.items@.take(k as int))),
            decreases self.items@.len() - k,
        {
            proof {
                self.lemma_body_step(k as int);
            }
            collect_sites(&self.items[k], &mut out);
            k = k + 1;
        }
        proof {
            assert(self.items@.take(k as int) =~= self.items@);
            assert(site_views(Seq::<DeclSite>::empty()) =~= Seq::<Site>::empty());
        }
        out
    }

    /// Flattens the tree: the single flags in the order they are first
    /// declared (their bit order), and each named group with its additions
    /// (explicit ones and every name declared directly inside it) and
    /// removals, groups declared inside another listed first.
    pub fn build(&self) -> (r: ConstBuildResult)
        ensures
            names(r.singles@) == singles_of_items(self.body()),
            group_defs(r.groups@) == groups_of_items(self.body()),
    {
        let mut singles: Vec<String> = Vec::new();
        let mut groups: Vec<ConstGroup> = Vec::new();
        proof {
            assert(names(singles@) =~= Seq::<Seq<char>>::empty());
            assert(group_defs(groups@) =~= Seq::<GroupDef>::empty());
        }
        let mut k: usize = 0;
        while k < self.items.len()
            invariant
                k <= self.items@.len(),
                names(singles@) == singles_of_items(block_items(self.items@.take(k as int))),
                group_defs(groups@) == groups_of_items(block_items(self.items@.take(k as int))),
            decreases self.items@.len() - k,
        {
            proof {
                self.lemma_body_step(k as int);
            }
            build_item(&self.items[k], &mut singles, &mut groups);
            k = k + 1;
        }
        proof {
            assert(self.items@.take(k as int) =~= self.items@);
        }
        ConstBuildResult { singles, groups }
    }
}

/// The names kept for the layout constants of a flag type.
pub open spec fn reserved_names() -> Seq<Seq<char>> {
    seq![
        "SINGLE_FLAG_COUNT"@,
        "GROUP_FLAG_COUNT"@,
        "TOTAL_FLAG_COUNT"@,
        "BITS"@,
        "UNUSED_BITS"@,
        "USED_BITS"@,
        "MASK_BITS"@,
        "MASK_COUNT"@,
        "NONE"@,
        "ALL"@,
        "TABLES"@,
    ]
}

pub open spec fn is_reserved(x: Seq<char>) -> bool {
    reserved_names().contains(x)
}

fn reserved_list() -> (r: Vec<String>)
    ensures
        names(r@) == reserved_names(),
{
    let r = vec![
        "SINGLE_FLAG_COUNT".to_owned(),
        "GROUP_FLAG_COUNT".to_owned(),
        "TOTAL_FLAG_COUNT".to_owned(),
        "BITS".to_owned(),
        "UNUSED_BITS".to_owned(),
        "USED_BITS".to_owned(),
        "MASK_BITS".to_owned(),
        "MASK_COUNT".to_owned(),
        "NONE".to_owned(),
        "ALL".to_owned(),
        "TABLES".to_owned(),
    ];
    assert(names(r@) =~= reserved_names());
    r
}

/// Whether `name` is one of the reserved names.
pub fn is_reserved_name(name: &String) -> (r: bool)
    ensures
        r == is_reserved(name@),
{
    let list = reserved_list();
    let mut k: usize = 0;
    while k < list.len()
        invariant
            names(list@) == reserved_names(),
            k <= list@.len(),
            forall|t: int| 0 <= t < k ==> reserved_names()[t] != name@,
        decreases list@.len() - k,
    {
        if list[k] == *name {
            proof {
                assert(reserved_names()[k as int] == name@);
            }
            return true;
        }
        k = k + 1;
    }
    false
}

/// The text used for a declaration site in error messages.
pub open spec fn site_label(site: Site) -> Seq<char> {
    match site.0 {
        Some(x) => x,
        None => "_"@,
    }
}

/// Site `i` repeats a name declared at an earlier site.
pub open spec fn is_repeat(s: Seq<Site>, i: int) -> bool {
    s[i].0 is Some && exists|j: int| 0 <= j < i && s[j].0 == #[trigger] s[i].0
}

/// Site `i` declares a reserved name.
pub open spec fn site_reserved(s: Seq<Site>, i: int) -> bool {
    s[i].0 is Some && is_reserved(s[i].0->Some_0)
}

/// What an error claims of the sites is true.
pub open spec fn reports(s: Seq<Site>, e: FlagError) -> bool {
    match e {
        FlagError::DuplicateIdentifier { name, first, repeat } => {
            &&& repeat < s.len()
            &&& first < repeat
            &&& s[repeat as int].0 == Some(name@)
            &&& s[first as int].0 == Some(name@)
            &&& forall|j: int| 0 <= j < first ==> s[j].0 != Some(name@)
        },
        FlagError::ReservedIdentifier { name, at } => {
            at < s.len() && s[at as int].0 == Some(name@) && is_reserved(name@)
        },
        FlagError::ForbiddenAnnotation { name, at } => {
            at < s.len() && s[at as int].1 && name@ == site_label(s[at as int])
        },
        _ => false,
    }
}

pub open spec fn is_duplicate_at(e: FlagError, i: int) -> bool {
    match e {
        FlagError::DuplicateIdentifier { repeat, .. } => repeat == i,
        _ => false,
    }
}

pub open spec fn is_reserved_at(e: FlagError, i: int) -> bool {
    match e {
        FlagError::ReservedIdentifier { at, .. } => at == i,
        _ => false,
    }
}

pub open spec fn is_forbidden_at(e: FlagError, i: int) -> bool {
    match e {
        FlagError::ForbiddenAnnotation { at, .. } => at == i,
        _ => false,
    }
}

/// No site repeats a name, declares a reserved name or carries a cfg.
pub open spec fn names_ok(s: Seq<Site>) -> bool {
    forall|i: int| 0 <= i < s.len() ==> !is_repeat(s, i) && !site_reserved(s, i) && !(#[trigger] s[i]).1
}

/// `p` is the first site that declares `x`.
pub open spec fn first_site(s: Seq<Site>, p: int, x: Seq<char>) -> bool {
    &&& 0 <= p < s.len()
    &&& s[p].0 == Some(x)
    &&& forall|j: int| 0 <= j < p ==> s[j].0 != Some(x)
}

/// The errors of one site, given the first earlier site with its name, if any.
fn site_errors(site: &DeclSite, i: usize, first: Option<usize>) -> (r: Vec<FlagError>)
    requires
        site.name is None ==> first is None,
    ensures
        forall|e: int|
            0 <= e < r@.len() ==> match #[trigger] r@[e] {
                FlagError::DuplicateIdentifier { name, first: f, repeat } => {
                    &&& first == Some(f)
                    &&& repeat == i
                    &&& opt_name(site.name) == Some(name@)
                },
                FlagError::ReservedIdentifier { name, at } => {
                    at == i && opt_name(site.name) == Some(name@) && is_reserved(name@)
                },
                FlagError::ForbiddenAnnotation { name, at } => {
                    at == i && site.cfg && name@ == site_label((opt_name(site.name), site.cfg))
                },
                _ => false,
            },
        first is Some ==> exists|e: int| 0 <= e < r@.len() && is_duplicate_at(#[trigger] r@[e], i as int),
        site.name is Some && is_reserved(site.name->Some_0@) ==> exists|e: int|
            0 <= e < r@.len() && is_reserved_at(#[trigger] r@[e], i as int),
        site.cfg ==> exists|e: int| 0 <= e < r@.len() && is_forbidden_at(#[trigger] r@[e], i as int),
        r@.len() == 0 ==> first is None && !(site.name is Some && is_reserved(site.name->Some_0@))
            && !site.cfg,
{
    let mut errors: Vec<FlagError> = Vec::new();
    match &site.name {
        Some(name) => {
            match first {
                Some(f) => {
                    errors.push(FlagError::DuplicateIdentifier { name: name.clone(), first: f, repeat: i });
                    assert(is_duplicate_at(errors@[0], i as int));
                },
                None => {},
            }
            if is_reserved_name(name) {
                let ghost e0 = errors@;
                errors.push(FlagError::ReservedIdentifier { name: name.clone(), at: i });
                assert(is_reserved_at(errors@[errors@.len() - 1], i as int));
                assert(e0.len() > 0 ==> errors@[0] == e0[0]);
            }
        },
        None => {},
    }
    let ghost before = errors@;
    if site.cfg {
        let label = match &site.name {
            Some(name) => name.clone(),
            None => "_".to_owned(),
        };
        errors.push(FlagError::ForbiddenAnnotation { name: label, at: i });
        assert(is_forbidden_at(errors@[errors@.len() - 1], i as int));
        assert forall|e: int| 0 <= e < before.len() implies errors@[e] == before[e] by {}
    }
    errors
}

/// The first site before `i` that declares `name`, if any.
fn first_declaration(sites: &Vec<DeclSite>, i: usize, name: &String) -> (r: Option<usize>)
    requires
        i <= sites@.len(),
    ensures
        match r {
            Some(p) => p < i && first_site(site_views(sites@), p as int, name@),
            None => forall|j: int| 0 <= j < i ==> site_views(sites@)[j].0 != Some(name@),
        },
{
    let ghost s = site_views(sites@);
    let mut j: usize = 0;
    while j < i
        invariant
            s == site_views(sites@),
            i <= sites@.len(),
            j <= i,
            forall|k: int| 0 <= k < j ==> s[k].0 != Some(name@),
        decreases i - j,
    {
        assert(s[j as int] == (opt_name(sites@[j as int].name), sites@[j as int].cfg));
        match &sites[j].name {
            Some(other) => {
                if *other == *name {
                    return Some(j);
                }
            },
            None => {},
        }
        j = j + 1;
    }
    None
}

/// The errors found for sites `0..i` (`errors`), and for sites `0..i + 1`
/// after the errors of site `i` (`found`) are appended.
proof fn lemma_errors_step(s: Seq<Site>, i: int, errors: Seq<FlagError>, found: Seq<FlagError>)
    requires
        0 <= i < s.len(),
        forall|e: int| 0 <= e < errors.len() ==> reports(s, #[trigger] errors[e]),
        forall|e: int| 0 <= e < found.len() ==> reports(s, #[trigger] found[e]),
        forall|j: int|
            0 <= j < i && is_repeat(s, j) ==> exists|e: int|
                0 <= e < errors.len() && is_duplicate_at(#[trigger] errors[e], j),
        forall|j: int|
            0 <= j < i && site_reserved(s, j) ==> exists|e: int|
                0 <= e < errors.len() && is_reserved_at(#[trigger] errors[e], j),
        forall|j: int|
            0 <= j < i && (#[trigger] s[j]).1 ==> exists|e: int|
                0 <= e < errors.len() && is_forbidden_at(#[trigger] errors[e], j),
        errors.len() == 0 ==> forall|j: int|
            0 <= j < i ==> !is_repeat(s, j) && !site_reserved(s, j) && !(#[trigger] s[j]).1,
        is_repeat(s, i) ==> exists|e: int| 0 <= e < found.len() && is_duplicate_at(#[trigger] found[e], i),
        site_reserved(s, i) ==> exists|e: int|
            0 <= e < found.len() && is_reserved_at(#[trigger] found[e], i),
        s[i].1 ==> exists|e: int| 0 <= e < found.len() && is_forbidden_at(#[trigger] found[e], i),
        found.len() == 0 ==> !is_repeat(s, i) && !site_reserved(s, i) && !s[i].1,
    ensures
        ({
            let all = errors + found;
            &&& forall|e: int| 0 <= e < all.len() ==> reports(s, #[trigger] all[e])
            &&& forall|j: int|
                0 <= j < i + 1 && is_repeat(s, j) ==> exists|e: int|
                    0 <= e < all.len() && is_duplicate_at(#[trigger] all[e], j)
            &&& forall|j: int|
                0 <= j < i + 1 && site_reserved(s, j) ==> exists|e: int|
                    0 <= e < all.len() && is_reserved_at(#[trigger] all[e], j)
            &&& forall|j: int|
                0 <= j < i + 1 && (#[trigger] s[j]).1 ==> exists|e: int|
                    0 <= e < all.len() && is_forbidden_at(#[trigger] all[e], j)
            &&& all.len() == 0 ==> forall|j: int|
                0 <= j < i + 1 ==> !is_repeat(s, j) && !site_reserved(s, j) && !(#[trigger] s[j]).1
        }),
{
    let all = errors + found;
    let n = errors.len();
    assert forall|e: int| 0 <= e < all.len() implies reports(s, #[trigger] all[e]) by {
        if e >= n {
            assert(all[e] == found[e - n]);
        } else {
            assert(all[e] == errors[e]);
        }
    }
    assert forall|j: int| 0 <= j < i + 1 && is_repeat(s, j) implies exists|e: int|
        0 <= e < all.len() && is_duplicate_at(#[trigger] all[e], j) by {
        if j < i {
            let e = choose|e: int| 0 <= e < n && is_duplicate_at(#[trigger] errors[e], j);
            assert(all[e] == errors[e]);
        } else {
            let e = choose|e: int| 0 <= e < found.len() && is_duplicate_at(#[trigger] found[e], j);
            assert(all[n + e] == found[e]);
        }
    }
    assert forall|j: int| 0 <= j < i + 1 && site_reserved(s, j) implies exists|e: int|
        0 <= e < all.len() && is_reserved_at(#[trigger] all[e], j) by {
        if j < i {
            let e = choose|e: int| 0 <= e < n && is_reserved_at(#[trigger] errors[e], j);
            assert(all[e] == errors[e]);
        } else {
            let e = choose|e: int| 0 <= e < found.len() && is_reserved_at(#[trigger] found[e], j);
            assert(all[n + e] == found[e]);
        }
    }
    assert forall|j: int| 0 <= j < i + 1 && (#[trigger] s[j]).1 implies exists|e: int|
        0 <= e < all.len() && is_forbidden_at(#[trigger] all[e], j) by {
        if j < i {
            let e = choose|e: int| 0 <= e < n && is_forbidden_at(#[trigger] errors[e], j);
            assert(all[e] == errors[e]);
        } else {
            let e = choose|e: int| 0 <= e < found.len() && is_forbidden_at(#[trigger] found[e], j);
            assert(all[n + e] == found[e]);
        }
    }
}

/// Checks every declaration site, in order: (a) its name was not declared
/// before, (b) its name is not reserved, (c) it carries no cfg annotation.
/// Every problem is reported; the list is empty exactly when the names are
/// fine.
pub fn verify_sites(sites: &Vec<DeclSite>) -> (r: Vec<FlagError>)
    ensures
        forall|e: int| 0 <= e < r@.len() ==> reports(site_views(sites@), #[trigger] r@[e]),
        forall|i: int|
            0 <= i < sites@.len() && is_repeat(site_views(sites@), i) ==> exists|e: int|
                0 <= e < r@.len() && is_duplicate_at(#[trigger] r@[e], i),
        forall|i: int|
            0 <= i < sites@.len() && site_reserved(site_views(sites@), i) ==> exists|e: int|
                0 <= e < r@.len() && is_reserved_at(#[trigger] r@[e], i),
        forall|i: int|
            0 <= i < sites@.len() && site_views(sites@)[i].1 ==> exists|e: int|
                0 <= e < r@.len() && is_forbidden_at(#[trigger] r@[e], i),
        r@.len() == 0 <==> names_ok(site_views(sites@)),
{
    let ghost s = site_views(sites@);
    let mut errors: Vec<FlagError> = Vec::new();
    let mut i: usize = 0;
    while i < sites.len()
        invariant
            s == site_views(sites@),
            i <= sites@.len(),
            forall|e: int| 0 <= e < errors@.len() ==> reports(s, #[trigger] errors@[e]),
            forall|j: int|
                0 <= j < i && is_repeat(s, j) ==> exists|e: int|
                    0 <= e < errors@.len() && is_duplicate_at(#[trigger] errors@[e], j),
            forall|j: int|
                0 <= j < i && site_reserved(s, j) ==> exists|e: int|
                    0 <= e < errors@.len() && is_reserved_at(#[trigger] errors@[e], j),
            forall|j: int|
                0 <= j < i && (#[trigger] s[j]).1 ==> exists|e: int|
                    0 <= e < errors@.len() && is_forbidden_at(#[trigger] errors@[e], j),
            errors@.len() == 0 ==> forall|j: int|
                0 <= j < i ==> !is_repeat(s, j) && !site_reserved(s, j) && !(#[trigger] s[j]).1,
        decreases sites@.len() - i,
    {
        let site = &sites[i];
        assert(s[i as int] == (opt_name(site.name), site.cfg));
        let first = match &site.name {
            Some(name) => first_declaration(sites, i, name),
            None => None,
        };
        proof {
            match first {
                Some(f) => {
                    assert(s[f as int].0 == s[i as int].0);
                    assert(is_repeat(s, i as int));
                },
                None => {},
            }
        }
        let mut found = site_errors(site, i, first);
        proof {
            assert forall|e: int| 0 <= e < found@.len() implies reports(s, #[trigger] found@[e]) by {
                match found@[e] {
                    FlagError::DuplicateIdentifier { name, first: f, repeat } => {
                        assert(first_site(s, f as int, site.name->Some_0@));
                    },
                    _ => {},
                }
            }
            lemma_errors_step(s, i as int, errors@, found@);
        }
        errors.append(&mut found);
        i = i + 1;
    }
    proof {
        assert(s.len() == sites@.len());
        if errors@.len() == 0 {
            assert(names_ok(s));
        }
        if errors@.len() > 0 {
            let e = errors@[0];
            assert(reports(s, e));
            match e {
                FlagError::DuplicateIdentifier { name, first, repeat } => {
                    assert(s[first as int].0 == s[repeat as int].0);
                    assert(is_repeat(s, repeat as int));
                    assert(!names_ok(s));
                },
                FlagError::ReservedIdentifier { name, at } => {
                    assert(site_reserved(s, at as int));
                    assert(!names_ok(s));
                },
                FlagError::ForbiddenAnnotation { name, at } => {
                    assert(s[at as int].1);
                    assert(at < s.len());
                    assert(names_ok(s) ==> !is_repeat(s, at as int) && !site_reserved(s, at as int)
                        && !s[at as int].1);
                    assert(!names_ok(s));
                },
                _ => {},
            }
        }
    }
    errors
}

} // verus!
