use vstd::prelude::*;
use crate::bitmask::{Bitmask, is_mask_width};
use crate::decl::{
    group_defs, groups_of_items, names, names_ok, reports, singles_of_items, site_views, sites_of_items,
    verify_sites, ConstBlock, ConstGroup,
};
use crate::dep_graph::{
    all_known, all_shaped, eval_group, has_cycle, lookup, resolve, target_bits, target_of, views, Target,
};
use crate::error::FlagError;
use crate::layout::Layout;

verus! {

/// The most flags, single and group together, that one flag type may declare.
pub const MAX_FLAGS: usize = 65536;

/// A compiled flag type: the declared flags in order, the sizes of the
/// packed representation, and the bits of every group.
pub struct CompiledFlags {
    /// Single flags; flag `i` is bit `i`.
    pub singles: Vec<String>,
    /// Groups, as flattened.
    pub groups: Vec<ConstGroup>,
    /// Bits of each group, in the order of `groups`.
    pub values: Vec<Bitmask>,
    pub layout: Layout,
    /// Word width of the bitmasks.
    pub mask_bits: u32,
}

impl CompiledFlags {
    /// The compiled tables are consistent: a bitmask of the right shape for
    /// every group, holding the group's bits.
    pub open spec fn wf(self) -> bool {
        &&& self.singles@.len() <= MAX_FLAGS
        &&& Bitmask::shape_ok(self.singles@.len(), self.mask_bits as nat)
        &&& self.values@.len() == self.groups@.len()
        &&& all_shaped(self.values@, self.singles@.len(), self.mask_bits as nat)
        &&& forall|a: int|
            0 <= a < self.values@.len() ==> (#[trigger] self.values@[a])@ == eval_group(
                names(self.singles@),
                group_defs(self.groups@),
                views(self.values@),
                a,
            )
    }

    /// The bits that the name `x` stands for.
    pub open spec fn bits_of(self, x: Seq<char>) -> Seq<bool> {
        target_bits(
            self.singles@.len(),
            views(self.values@),
            target_of(names(self.singles@), group_defs(self.groups@), x),
        )
    }

    /// The bits of the flag or group called `name`; `None` when nothing
    /// is declared under that name.
    pub fn find(&self, name: &String) -> (r: Option<Bitmask>)
        requires
            self.wf(),
        ensures
            match r {
                Some(m) => target_of(names(self.singles@), group_defs(self.groups@), name@)
                    != Target::Unknown && m.wf() && m.bit_count == self.singles@.len()
                    && m.mask_bits == self.mask_bits && m@ == self.bits_of(name@),
                None => target_of(names(self.singles@), group_defs(self.groups@), name@)
                    == Target::Unknown,
            },
    {
        let n = self.singles.len() as u32;
        match lookup(&self.singles, &self.groups, name) {
            Target::Single(i) => {
                proof {
                    crate::dep_graph::lemma_target_bound(names(self.singles@), group_defs(self.groups@), name@);
                }
                let m = Bitmask::zero(n, self.mask_bits).with_bit(i as u32);
                assert(m@ =~= self.bits_of(name@));
                Some(m)
            },
            Target::Group(j) => {
                proof {
                    crate::dep_graph::lemma_target_bound(names(self.singles@), group_defs(self.groups@), name@);
                }
                let m = self.values[j].duplicate();
                assert(m@ =~= self.bits_of(name@));
                Some(m)
            },
            Target::Unknown => None,
        }
    }

    /// Every single flag set.
    pub fn all(&self) -> (r: Bitmask)
        requires
            self.wf(),
        ensures
            r.wf(),
            r.bit_count == self.singles@.len(),
            r.mask_bits == self.mask_bits,
            r@ == Seq::new(self.singles@.len(), |i: int| true),
    {
        Bitmask::all(self.singles.len() as u32, self.mask_bits)
    }

    /// No flag set.
    pub fn none(&self) -> (r: Bitmask)
        requires
            self.wf(),
        ensures
            r.wf(),
            r.bit_count == self.singles@.len(),
            r.mask_bits == self.mask_bits,
            r@ == Seq::new(self.singles@.len(), |i: int| false),
    {
        Bitmask::zero(self.singles.len() as u32, self.mask_bits)
    }
}

/// Compiles a declaration tree into flags packed in words of `mask_bits` bits.
///
/// More than [`MAX_FLAGS`] declared flags fail with `TooManyFlags` before
/// anything else is looked at. Then every declaration is checked and all
/// naming problems are reported together. Last the groups are resolved,
/// which fails with `UnknownIdentifier` or `CyclicGroupReference`.
pub fn compile(block: &ConstBlock, mask_bits: u32) -> (r: Result<CompiledFlags, Vec<FlagError>>)
    requires
        is_mask_width(mask_bits as nat),
    ensures
        ({
            let body = block.body();
            let s = singles_of_items(body);
            let g = groups_of_items(body);
            let sites = sites_of_items(body);
            &&& s.len() + g.len() > MAX_FLAGS ==> r is Err && r->Err_0@ == seq![
                FlagError::TooManyFlags { singles: s.len() as usize, groups: g.len() as usize },
            ]
            &&& s.len() + g.len() <= MAX_FLAGS && !names_ok(sites) ==> r is Err && r->Err_0@.len() > 0
                && forall|e: int| 0 <= e < r->Err_0@.len() ==> reports(sites, #[trigger] r->Err_0@[e])
            &&& s.len() + g.len() <= MAX_FLAGS && names_ok(sites) && all_known(s, g) && !has_cycle(s, g)
                ==> r is Ok
            &&& s.len() + g.len() <= MAX_FLAGS && names_ok(sites) && r is Err ==> r->Err_0@.len() == 1
                && (r->Err_0@[0] is UnknownIdentifier || r->Err_0@[0] is CyclicGroupReference)
            &&& r is Ok ==> s.len() + g.len() <= MAX_FLAGS && names_ok(sites) && all_known(s, g)
                && !has_cycle(s, g)
            &&& r is Ok ==> {
                let c = r->Ok_0;
                &&& c.wf()
                &&& c.mask_bits == mask_bits
                &&& names(c.singles@) == s
                &&& group_defs(c.groups@) == g
                &&& c.layout == Layout::spec_new(c.singles@.len(), mask_bits as nat)
            }
        }),
{
    let built = block.build();
    proof {
        assert(names(built.singles@).len() == built.singles@.len());
        assert(group_defs(built.groups@).len() == built.groups@.len());
    }
    if built.singles.len() > MAX_FLAGS || built.groups.len() > MAX_FLAGS || built.singles.len()
        + built.groups.len() > MAX_FLAGS {
        return Err(vec![FlagError::TooManyFlags { singles: built.singles.len(), groups: built.groups.len() }]);
    }
    let sites = block.sites();
    let errors = verify_sites(&sites);
    if errors.len() > 0 {
        return Err(errors);
    }
    let n = built.singles.len() as u32;
    let layout = Layout::new(n, mask_bits);
    match resolve(&built.singles, &built.groups, mask_bits) {
        Ok(values) => Ok(
            CompiledFlags { singles: built.singles, groups: built.groups, values, layout, mask_bits },
        ),
        Err(e) => Err(vec![e]),
    }
}

} // verus!
