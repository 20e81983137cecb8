//! The injection context and its participating types.
//!
//! The context owns three kinds of slots: a parameter slot filled by the
//! caller at allocation, a default slot initialized from the type's default,
//! and computed slots that start empty and are written exactly once by the
//! instantiation engine. A computed slot is a [`Slot`]: an explicit
//! `Empty`/`Filled` state, so a premature read is a checked failure instead
//! of undefined behaviour. Values pulled out of the context are reached
//! through the [`Provider`] capability; injectable types implement
//! [`Dependency`] to report their dependency list and to construct
//! themselves from a context.

use crate::engine::Declaration;
use crate::engine::TypeIdentifier;
use crate::engine::decl_valid_order;
use crate::engine::decls_acyclic;
use crate::engine::dep_edge;
use crate::engine::distinct_ids;
use crate::engine::plan;
use vstd::pervasive::unreached;
use vstd::prelude::*;

verus! {

/// Identifier of the parameter-slot type [`MyCoolValue`].
pub const MY_COOL_VALUE_ID: TypeIdentifier = 1;

/// Identifier of the default-slot type [`MyOtherCoolValue`].
pub const MY_OTHER_COOL_VALUE_ID: TypeIdentifier = 2;

/// Identifier of the computed-slot type [`CoolDependency`].
pub const COOL_DEPENDENCY_ID: TypeIdentifier = 3;

/// Identifier of the computed-slot type [`OtherDependency`].
pub const OTHER_DEPENDENCY_ID: TypeIdentifier = 4;

/// A computed slot was read before the instantiation engine wrote it.
#[derive(Clone, Copy, PartialEq, Eq, Structural, Debug)]
pub struct PrematureReadError;

/// A slot identifier reached the instantiation dispatch although no
/// constructor is registered for it: the graph and the constructor set
/// diverged, an internal-consistency fault.
#[derive(Clone, Copy, PartialEq, Eq, Structural, Debug)]
pub struct UnknownTypeError;

/// A write-once location: empty until the instantiation engine writes it,
/// then read-only.
pub enum Slot<T> {
    Empty,
    Filled(T),
}

impl<T> Slot<T> {
    /// The held value; meaningful only for a filled slot.
    pub open spec fn value(self) -> T
        recommends
            self is Filled,
    {
        self->0
    }
}

/// The string-carrying parameter value handed to the context by its caller.
pub struct MyCoolValue(pub String);

impl Clone for MyCoolValue {
    fn clone(&self) -> (r: Self)
        ensures
            r == *self,
    {
        MyCoolValue(self.0.clone())
    }
}

/// The default-initialized value: its default wraps 32.
#[derive(Clone, Copy)]
pub struct MyOtherCoolValue(pub u64);

impl Default for MyOtherCoolValue {
    fn default() -> (r: MyOtherCoolValue)
        ensures
            r.0 == 32,
    {
        MyOtherCoolValue(32)
    }
}

/// An injectable type that pulls the parameter value out of the context.
pub struct CoolDependency {
    pub cool: MyCoolValue,
}

impl Clone for CoolDependency {
    fn clone(&self) -> (r: Self)
        ensures
            r == *self,
    {
        CoolDependency { cool: self.cool.clone() }
    }
}

/// An injectable type that pulls both the computed [`CoolDependency`] and
/// the parameter value out of the context.
pub struct OtherDependency {
    pub cool_dep: CoolDependency,
    pub cool_value: MyCoolValue,
}

/// The shared container: one parameter slot, one default slot, and the two
/// computed slots the instantiation engine fills.
pub struct InjectionContext {
    pub other_dependency: Slot<OtherDependency>,
    pub cool_value: MyCoolValue,
    pub other_cool_value: MyOtherCoolValue,
    pub cool_dependency: Slot<CoolDependency>,
}

impl InjectionContext {
    /// Whether the slot carrying `id` already holds its value. Parameter and
    /// default slots are initialized at allocation; a computed slot only
    /// once the engine wrote it. An identifier naming no slot is never
    /// filled.
    pub open spec fn slot_filled(self, id: TypeIdentifier) -> bool {
        if id == MY_COOL_VALUE_ID {
            true
        } else if id == MY_OTHER_COOL_VALUE_ID {
            true
        } else if id == COOL_DEPENDENCY_ID {
            self.cool_dependency is Filled
        } else if id == OTHER_DEPENDENCY_ID {
            self.other_dependency is Filled
        } else {
            false
        }
    }

    /// Every identifier in `deps` names a filled slot.
    pub open spec fn deps_filled(self, deps: Seq<TypeIdentifier>) -> bool {
        forall|k: int| 0 <= k < deps.len() ==> self.slot_filled(#[trigger] deps[k])
    }
}

/// The capability to retrieve, by type, a reference to an already
/// constructed value from a context.
pub trait Provider<T>: Sized {
    /// The value for `T` this provider holds, once it is ready.
    spec fn provided(&self) -> Option<T>;

    /// Borrows the held value. Verified callers can only reach this once
    /// the value is ready; an unverified premature call fails loudly
    /// instead of reading uninitialized storage.
    fn get(&self) -> (r: &T)
        requires
            self.provided() is Some,
        ensures
            self.provided() == Some(*r),
    ;

    /// Checked access: hands the value out exactly when it is ready.
    fn try_get(&self) -> (r: Result<&T, PrematureReadError>)
        ensures
            r is Ok <==> self.provided() is Some,
            (r matches Ok(v) ==> self.provided() == Some(*v)),
    ;
}

impl Provider<MyCoolValue> for InjectionContext {
    open spec fn provided(&self) -> Option<MyCoolValue> {
        Some(self.cool_value)
    }

    fn get(&self) -> (r: &MyCoolValue) {
        &self.cool_value
    }

    fn try_get(&self) -> (r: Result<&MyCoolValue, PrematureReadError>) {
        Ok(&self.cool_value)
    }
}

impl Provider<MyOtherCoolValue> for InjectionContext {
    open spec fn provided(&self) -> Option<MyOtherCoolValue> {
        Some(self.other_cool_value)
    }

    fn get(&self) -> (r: &MyOtherCoolValue) {
        &self.other_cool_value
    }

    fn try_get(&self) -> (r: Result<&MyOtherCoolValue, PrematureReadError>) {
        Ok(&self.other_cool_value)
    }
}

impl Provider<CoolDependency> for InjectionContext {
    open spec fn provided(&self) -> Option<CoolDependency> {
        match self.cool_dependency {
            Slot::Filled(v) => Some(v),
            Slot::Empty => None,
        }
    }

    fn get(&self) -> (r: &CoolDependency) {
        match &self.cool_dependency {
            Slot::Filled(v) => v,
            Slot::Empty => unreached(),
        }
    }

    fn try_get(&self) -> (r: Result<&CoolDependency, PrematureReadError>) {
        match &self.cool_dependency {
            Slot::Filled(v) => Ok(v),
            Slot::Empty => Err(PrematureReadError),
        }
    }
}

impl Provider<OtherDependency> for InjectionContext {
    open spec fn provided(&self) -> Option<OtherDependency> {
        match self.other_dependency {
            Slot::Filled(v) => Some(v),
            Slot::Empty => None,
        }
    }

    fn get(&self) -> (r: &OtherDependency) {
        match &self.other_dependency {
            Slot::Filled(v) => v,
            Slot::Empty => unreached(),
        }
    }

    fn try_get(&self) -> (r: Result<&OtherDependency, PrematureReadError>) {
        match &self.other_dependency {
            Slot::Filled(v) => Ok(v),
            Slot::Empty => Err(PrematureReadError),
        }
    }
}

/// The contract every injectable type exposes to the instantiation engine:
/// a static dependency list and a constructor that pulls exactly those
/// dependencies out of the context.
pub trait Dependency: Sized {
    /// The identifiers of the types this type pulls from the context.
    spec fn spec_dependencies() -> Seq<TypeIdentifier>;

    /// The value this type's constructor builds from a given context.
    spec fn built_from(context: InjectionContext) -> Self;

    /// The declared dependency list handed to the engine.
    fn dependencies() -> (r: Vec<TypeIdentifier>)
        ensures
            r@ == Self::spec_dependencies(),
    ;

    /// Constructs the value by pulling each declared dependency out of the
    /// context. Every declared dependency must already stand filled, so the
    /// constructor never observes an empty slot.
    fn instn(context: &InjectionContext) -> (r: Self)
        requires
            context.deps_filled(Self::spec_dependencies()),
        ensures
            r == Self::built_from(*context),
    ;
}

impl Dependency for CoolDependency {
    open spec fn spec_dependencies() -> Seq<TypeIdentifier> {
        seq![MY_COOL_VALUE_ID]
    }

    open spec fn built_from(context: InjectionContext) -> Self {
        CoolDependency { cool: context.cool_value }
    }

    fn dependencies() -> (r: Vec<TypeIdentifier>) {
        let mut deps: Vec<TypeIdentifier> = Vec::new();
        deps.push(MY_COOL_VALUE_ID);
        proof {
            assert(deps@ =~= Self::spec_dependencies());
        }
        deps
    }

    fn instn(context: &InjectionContext) -> (r: Self) {
        proof {
            assert(context.slot_filled(MY_COOL_VALUE_ID));
        }
        let cool: &MyCoolValue = <InjectionContext as Provider<MyCoolValue>>::get(context);
        CoolDependency { cool: cool.clone() }
    }
}

impl Dependency for OtherDependency {
    open spec fn spec_dependencies() -> Seq<TypeIdentifier> {
        seq![COOL_DEPENDENCY_ID, MY_COOL_VALUE_ID]
    }

    open spec fn built_from(context: InjectionContext) -> Self {
        OtherDependency {
            cool_dep: context.cool_dependency.value(),
            cool_value: context.cool_value,
        }
    }

    fn dependencies() -> (r: Vec<TypeIdentifier>) {
        let mut deps: Vec<TypeIdentifier> = Vec::new();
        deps.push(COOL_DEPENDENCY_ID);
        deps.push(MY_COOL_VALUE_ID);
        proof {
            assert(deps@ =~= Self::spec_dependencies());
        }
        deps
    }

    fn instn(context: &InjectionContext) -> (r: Self) {
        proof {
            assert(context.slot_filled(Self::spec_dependencies()[0]));
            assert(context.slot_filled(Self::spec_dependencies()[1]));
        }
        let cool_dep: &CoolDependency = <InjectionContext as Provider<CoolDependency>>::get(
            context,
        );
        let cool_value: &MyCoolValue = <InjectionContext as Provider<MyCoolValue>>::get(context);
        OtherDependency { cool_dep: cool_dep.clone(), cool_value: cool_value.clone() }
    }
}

/// Exactly what a finished context looks like when constructed from the
/// parameter `p`: the parameter slot holds `p`, the default slot holds its
/// type's default, and both computed slots are filled with the values their
/// constructors build from the slots they declare.
pub open spec fn constructed(c: InjectionContext, p: MyCoolValue) -> bool {
    &&& c.cool_value == p
    &&& c.other_cool_value.0 == 32
    &&& c.cool_dependency == Slot::Filled(CoolDependency { cool: p })
    &&& c.other_dependency == Slot::Filled(
        OtherDependency { cool_dep: CoolDependency { cool: p }, cool_value: p },
    )
}

/// Node `idx` stands among the first `k` entries of `order`.
spec fn placed_before(order: Seq<usize>, k: int, idx: usize) -> bool {
    exists|kb: int| 0 <= kb < k && order[kb] == idx
}

/// The declaration set of this context's computed slots, exactly as the
/// engine receives it: each computed type's identifier with the dependency
/// list its `Dependency` impl reports.
fn declarations() -> (r: Vec<Declaration>)
    ensures
        r@.len() == 2,
        r@[0].id == OTHER_DEPENDENCY_ID,
        r@[0].deps@ == OtherDependency::spec_dependencies(),
        r@[1].id == COOL_DEPENDENCY_ID,
        r@[1].deps@ == CoolDependency::spec_dependencies(),
{
    let mut decls: Vec<Declaration> = Vec::new();
    decls.push(Declaration { id: OTHER_DEPENDENCY_ID, deps: OtherDependency::dependencies() });
    decls.push(Declaration { id: COOL_DEPENDENCY_ID, deps: CoolDependency::dependencies() });
    decls
}

/// This context's declaration set is acyclic: instantiating the cool
/// dependency first and the other dependency second respects every declared
/// dependency, so an instantiation order exists.
proof fn lemma_context_decls_acyclic(decls: Seq<Declaration>)
    requires
        decls.len() == 2,
        decls[0].id == OTHER_DEPENDENCY_ID,
        decls[0].deps@ == OtherDependency::spec_dependencies(),
        decls[1].id == COOL_DEPENDENCY_ID,
        decls[1].deps@ == CoolDependency::spec_dependencies(),
    ensures
        decls_acyclic(decls),
{
    let order = seq![1usize, 0usize];
    assert forall|i: usize| i < 2 implies order.contains(i) by {
        if i == 0 {
            assert(order[1] == i);
        } else {
            assert(order[0] == i);
        }
    }
    assert forall|i: int, j: int, ka: int|
        #![trigger dep_edge(decls, i, j), order[ka]]
        dep_edge(decls, i, j) && 0 <= ka < order.len() && order[ka] == i as usize implies exists|
        kb: int,
    | 0 <= kb < ka && order[kb] == j as usize by {
        if i == 1 {
            let w = choose|w: int|
                0 <= w < decls[1].deps@.len() && decls[1].deps@[w] == decls[j].id;
            assert(decls[1].deps@[w] == MY_COOL_VALUE_ID);
            assert(false);
        } else {
            assert(ka == 1);
            if j == 0 {
                let w = choose|w: int|
                    0 <= w < decls[0].deps@.len() && decls[0].deps@[w] == decls[0].id;
                assert(w == 0 || w == 1);
                assert(false);
            } else {
                assert(order[0] == 1usize);
            }
        }
    }
    assert(decl_valid_order(decls, order));
}

impl InjectionContext {
    /// Dispatches on a computed-slot identifier and writes that slot by
    /// running the type's constructor on the context as it stands: the one
    /// write the slot ever receives, possible only once everything the type
    /// declares is filled. An identifier that no computed slot carries means
    /// the graph and the constructor set diverged; that internal
    /// inconsistency is reported and changes nothing.
    pub fn fill(&mut self, id: TypeIdentifier) -> (r: Result<(), UnknownTypeError>)
        requires
            id == COOL_DEPENDENCY_ID ==> old(self).deps_filled(
                CoolDependency::spec_dependencies(),
            ) && old(self).cool_dependency is Empty,
            id == OTHER_DEPENDENCY_ID ==> old(self).deps_filled(
                OtherDependency::spec_dependencies(),
            ) && old(self).other_dependency is Empty,
        ensures
            r is Ok <==> (id == COOL_DEPENDENCY_ID || id == OTHER_DEPENDENCY_ID),
            final(self).cool_value == old(self).cool_value,
            final(self).other_cool_value == old(self).other_cool_value,
            id == COOL_DEPENDENCY_ID ==> final(self).cool_dependency == (Slot::Filled(
                CoolDependency::built_from(*old(self)),
            )) && final(self).other_dependency == old(self).other_dependency,
            id == OTHER_DEPENDENCY_ID ==> final(self).other_dependency == (Slot::Filled(
                OtherDependency::built_from(*old(self)),
            )) && final(self).cool_dependency == old(self).cool_dependency,
            r is Err ==> *final(self) == *old(self),
    {
        if id == COOL_DEPENDENCY_ID {
            let value = CoolDependency::instn(&*self);
            self.cool_dependency = Slot::Filled(value);
            Ok(())
        } else if id == OTHER_DEPENDENCY_ID {
            let value = OtherDependency::instn(&*self);
            self.other_dependency = Slot::Filled(value);
            Ok(())
        } else {
            Err(UnknownTypeError)
        }
    }

    /// Allocates the context with the parameter slot from the caller, the
    /// default slot from its type's default and both computed slots empty,
    /// plans an instantiation order over the declared dependencies, and
    /// fills every computed slot exactly once, each strictly after every
    /// slot its type declares. The fixed declaration set of this context is
    /// acyclic, so construction always succeeds — whichever order the
    /// engine picks — and the finished context is handed back on the heap,
    /// where it stays for its whole lifetime.
    pub fn new(cool_value: MyCoolValue) -> (r: Box<InjectionContext>)
        ensures
            constructed(*r, cool_value),
    {
        let mut context = InjectionContext {
            other_dependency: Slot::Empty,
            cool_value,
            other_cool_value: MyOtherCoolValue::default(),
            cool_dependency: Slot::Empty,
        };
        let ghost p = context.cool_value;
        let decls = declarations();
        proof {
            assert forall|i: int, j: int|
                0 <= i < decls@.len() && 0 <= j < decls@.len() && i != j implies (
            #[trigger] decls@[i]).id != (#[trigger] decls@[j]).id by {}
            assert(distinct_ids(decls@));
        }
        let order = match plan(&decls) {
            Ok(order) => order,
            Err(_) => {
                proof {
                    lemma_context_decls_acyclic(decls@);
                }
                unreached()
            },
        };
        let mut k: usize = 0;
        while k < order.len()
            invariant
                decls@.len() == 2,
                decls@[0].id == OTHER_DEPENDENCY_ID,
                decls@[0].deps@ == OtherDependency::spec_dependencies(),
                decls@[1].id == COOL_DEPENDENCY_ID,
                decls@[1].deps@ == CoolDependency::spec_dependencies(),
                decl_valid_order(decls@, order@),
                k <= order@.len(),
                context.cool_value == p,
                context.other_cool_value.0 == 32,
                placed_before(order@, k as int, 1) <==> context.cool_dependency is Filled,
                placed_before(order@, k as int, 0) <==> context.other_dependency is Filled,
                context.cool_dependency is Filled ==> context.cool_dependency == (Slot::Filled(
                    CoolDependency { cool: p },
                )),
                context.other_dependency is Filled ==> context.other_dependency == (Slot::Filled(
                    OtherDependency { cool_dep: CoolDependency { cool: p }, cool_value: p },
                )),
            decreases order@.len() - k,
        {
            let idx = order[k];
            proof {
                assert((#[trigger] order@[k as int]) < 2);
            }
            let id = decls[idx].id;
            proof {
                if idx == 1 {
                    if context.cool_dependency is Filled {
                        let kb = choose|kb: int| 0 <= kb < k && order@[kb] == 1usize;
                        assert(order@[kb] == order@[k as int]);
                        assert(false);
                    }
                    assert forall|q: int|
                        0 <= q < CoolDependency::spec_dependencies().len() implies
                        context.slot_filled(#[trigger] CoolDependency::spec_dependencies()[q]) by {
                        assert(CoolDependency::spec_dependencies()[q] == MY_COOL_VALUE_ID);
                    }
                    assert(context.deps_filled(CoolDependency::spec_dependencies()));
                } else {
                    assert(idx == 0);
                    if context.other_dependency is Filled {
                        let kb = choose|kb: int| 0 <= kb < k && order@[kb] == 0usize;
                        assert(order@[kb] == order@[k as int]);
                        assert(false);
                    }
                    assert(dep_edge(decls@, 0, 1)) by {
                        assert(decls@[0].deps@[0] == decls@[1].id);
                    }
                    assert(order@[k as int] == 0usize);
                    assert(exists|kb: int| 0 <= kb < k && order@[kb] == 1usize);
                    assert(context.cool_dependency is Filled);
                    assert forall|q: int|
                        0 <= q < OtherDependency::spec_dependencies().len() implies
                        context.slot_filled(#[trigger] OtherDependency::spec_dependencies()[q]) by {
                        assert(q == 0 || q == 1);
                    }
                    assert(context.deps_filled(OtherDependency::spec_dependencies()));
                }
            }
            let ghost before = context;
            let _outcome = context.fill(id);
            proof {
                assert(placed_before(order@, k + 1, idx)) by {
                    assert(order@[k as int] == idx);
                }
                assert forall|other: usize|
                    other != idx && placed_before(order@, k + 1, other) implies placed_before(
                    order@,
                    k as int,
                    other,
                ) by {
                    let kb = choose|kb: int| 0 <= kb < k + 1 && order@[kb] == other;
                    assert(kb < k);
                }
                if idx == 1 {
                    assert(CoolDependency::built_from(before) == (CoolDependency { cool: p }));
                } else {
                    assert(before.cool_dependency.value() == (CoolDependency { cool: p }));
                    assert(OtherDependency::built_from(before) == (OtherDependency {
                        cool_dep: CoolDependency { cool: p },
                        cool_value: p,
                    }));
                }
            }
            k = k + 1;
        }
        proof {
            assert(order@.contains(1usize));
            let kc = choose|kc: int| 0 <= kc < order@.len() && order@[kc] == 1usize;
            assert(placed_before(order@, k as int, 1));
            assert(order@.contains(0usize));
            let ko = choose|ko: int| 0 <= ko < order@.len() && order@[ko] == 0usize;
            assert(placed_before(order@, k as int, 0));
        }
        Box::new(context)
    }
}

/// Builds the example context whose string parameter is "yo".
pub fn get_context() -> (r: Box<InjectionContext>)
    ensures
        constructed(*r, r.cool_value),
        r.cool_value.0@ == "yo"@,
{
    let cool_value = MyCoolValue("yo".to_owned());
    InjectionContext::new(cool_value)
}

/// Construction is deterministic in its parameters: two finished contexts
/// built from equal parameters hold equal values in every slot, so separate
/// constructions share no state and cannot influence one another.
pub proof fn lemma_construction_deterministic(
    c1: InjectionContext,
    c2: InjectionContext,
    p1: MyCoolValue,
    p2: MyCoolValue,
)
    requires
        constructed(c1, p1),
        constructed(c2, p2),
        p1 == p2,
    ensures
        c1 == c2,
{
    assert(c1.other_cool_value == c2.other_cool_value);
}

} // verus!
