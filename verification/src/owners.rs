//! Which classes own a variable.

use vstd::prelude::*;
use vstd::relations::sorted_by;

use crate::class_info::{texts, ClassInfo, ClassInfoView};
use crate::index::Index;
use crate::src_tree::MethodSide;
use crate::text::{
    same_text, text_le, text_order_is_antisymmetric, text_order_is_total, text_order_is_transitive,
    text_precedes,
};

verus! {

/// How a class holds a variable.
#[derive(Clone, Copy, Debug, PartialEq, Eq, Structural)]
pub enum VarScope {
    Instance,
    ClassVariable,
    ClassInstance,
}

/// The place of a scope among the scopes.
pub open spec fn scope_rank(scope: VarScope) -> int {
    match scope {
        VarScope::Instance => 0,
        VarScope::ClassVariable => 1,
        VarScope::ClassInstance => 2,
    }
}

/// The order of owners: by name, then by scope.
pub open spec fn owner_le(a: (Seq<char>, VarScope), b: (Seq<char>, VarScope)) -> bool {
    if a.0 != b.0 {
        text_le(a.0, b.0)
    } else {
        scope_rank(a.1) <= scope_rank(b.1)
    }
}

/// What each owner of a list is.
pub open spec fn owner_views(list: Seq<(String, VarScope)>) -> Seq<(Seq<char>, VarScope)> {
    list.map_values(|o: (String, VarScope)| (o.0@, o.1))
}

/// What each class of an index is.
pub open spec fn info_views(infos: Map<Seq<char>, ClassInfo>) -> Map<Seq<char>, ClassInfoView> {
    infos.map_values(|i: ClassInfo| i@)
}

/// Whether a class holds the variable `var` in the scope, as far as the scope is seen from
/// the side: instance variables are not seen from the class side, nor class-side instance
/// variables from the instance side; from no side all are seen.
pub open spec fn holds_var(
    info: ClassInfoView,
    var: Seq<char>,
    side: Option<MethodSide>,
    scope: VarScope,
) -> bool {
    match scope {
        VarScope::Instance => side != Some(MethodSide::Class) && info.inst_vars.contains(var),
        VarScope::ClassVariable => info.class_vars.contains(var),
        VarScope::ClassInstance => side != Some(MethodSide::Instance)
            && info.class_inst_vars.contains(var),
    }
}

/// Those of `keys` under which a class of the owner's name holds `var` in its scope.
pub open spec fn owning_among(
    keys: Set<Seq<char>>,
    infos: Map<Seq<char>, ClassInfoView>,
    var: Seq<char>,
    side: Option<MethodSide>,
    owner: (Seq<char>, VarScope),
) -> Set<Seq<char>> {
    keys.filter(
        |key: Seq<char>|
            infos[key].name == owner.0 && holds_var(infos[key], var, side, owner.1),
    )
}

/// Whether `list` gives the owners of `var`, in order: each name and scope as many times
/// as there are classes of that name that hold the variable in that scope.
pub open spec fn lists_owners(
    list: Seq<(Seq<char>, VarScope)>,
    infos: Map<Seq<char>, ClassInfoView>,
    var: Seq<char>,
    side: Option<MethodSide>,
) -> bool {
    &&& sorted_by(list, |a: (Seq<char>, VarScope), b: (Seq<char>, VarScope)| owner_le(a, b))
    &&& forall|owner: (Seq<char>, VarScope)| #[trigger]
        list.to_multiset().count(owner) == owning_among(
            infos.dom(),
            infos,
            var,
            side,
            owner,
        ).len()
}

/// The order of owners is a total order.
proof fn lemma_owner_order()
    ensures
        vstd::relations::total_ordering(
            |a: (Seq<char>, VarScope), b: (Seq<char>, VarScope)| owner_le(a, b),
        ),
{
    let le = |a: (Seq<char>, VarScope), b: (Seq<char>, VarScope)| owner_le(a, b);
    assert forall|a: (Seq<char>, VarScope), b: (Seq<char>, VarScope)| #[trigger]
        le(a, b) && #[trigger] le(b, a) implies a == b by {
        if a.0 != b.0 {
            text_order_is_antisymmetric(a.0, b.0);
        }
    }
    assert forall|
        a: (Seq<char>, VarScope),
        b: (Seq<char>, VarScope),
        c: (Seq<char>, VarScope),
    | #[trigger]
        le(a, b) && #[trigger] le(b, c) implies le(a, c) by {
        if a.0 != b.0 && b.0 != c.0 {
            text_order_is_transitive(a.0, b.0, c.0);
            if a.0 == c.0 {
                text_order_is_antisymmetric(a.0, b.0);
            }
        }
    }
    assert forall|a: (Seq<char>, VarScope), b: (Seq<char>, VarScope)| #[trigger]
        le(a, b) || #[trigger] le(b, a) by {
        text_order_is_total(a.0, b.0);
    }
}

/// There is one list of the owners of a variable: what the order of the classes in the
/// index is makes no difference.
pub proof fn owners_are_listed_in_one_way(
    a: Seq<(Seq<char>, VarScope)>,
    b: Seq<(Seq<char>, VarScope)>,
    infos: Map<Seq<char>, ClassInfoView>,
    var: Seq<char>,
    side: Option<MethodSide>,
)
    requires
        lists_owners(a, infos, var, side),
        lists_owners(b, infos, var, side),
    ensures
        a == b,
{
    lemma_owner_order();
    assert forall|owner: (Seq<char>, VarScope)|
        a.to_multiset().count(owner) == b.to_multiset().count(owner) by {
        assert(a.to_multiset().count(owner) == owning_among(
            infos.dom(),
            infos,
            var,
            side,
            owner,
        ).len());
    }
    assert(a.to_multiset() =~= b.to_multiset());
    vstd::seq_lib::lemma_sorted_unique(
        a,
        b,
        |x: (Seq<char>, VarScope), y: (Seq<char>, VarScope)| owner_le(x, y),
    );
}

/// A name and scope are listed exactly where a class of the index has the name and holds
/// the variable in the scope.
pub proof fn listed_owners_hold_the_variable(
    list: Seq<(Seq<char>, VarScope)>,
    infos: Map<Seq<char>, ClassInfoView>,
    var: Seq<char>,
    side: Option<MethodSide>,
    owner: (Seq<char>, VarScope),
)
    requires
        infos.dom().finite(),
        lists_owners(list, infos, var, side),
    ensures
        list.contains(owner) <==> exists|key: Seq<char>| #[trigger]
            infos.contains_key(key) && infos[key].name == owner.0 && holds_var(
                infos[key],
                var,
                side,
                owner.1,
            ),
{
    let owning = owning_among(infos.dom(), infos, var, side, owner);
    infos.dom().lemma_len_filter(
        |key: Seq<char>| infos[key].name == owner.0 && holds_var(infos[key], var, side, owner.1),
    );
    vstd::seq_lib::to_multiset_contains(list, owner);
    assert(list.to_multiset().count(owner) == owning.len());
    if list.contains(owner) {
        assert(owning.len() > 0);
        assert(owning.contains(owning.choose()));
        assert(infos.contains_key(owning.choose()));
    }
    if exists|key: Seq<char>| #[trigger]
        infos.contains_key(key) && infos[key].name == owner.0 && holds_var(
            infos[key],
            var,
            side,
            owner.1,
        ) {
        let key = choose|key: Seq<char>| #[trigger]
            infos.contains_key(key) && infos[key].name == owner.0 && holds_var(
                infos[key],
                var,
                side,
                owner.1,
            );
        assert(owning.contains(key));
        assert(owning.len() > 0);
    }
}

/// Class variables are seen from both sides, instance variables from the instance side,
/// class-side instance variables from the class side; what is seen from no side in
/// particular is what is seen from either.
pub proof fn sides_see_their_variables(info: ClassInfoView, var: Seq<char>, scope: VarScope)
    ensures
        holds_var(info, var, None, scope) <==> holds_var(
            info,
            var,
            Some(MethodSide::Instance),
            scope,
        ) || holds_var(info, var, Some(MethodSide::Class), scope),
        !holds_var(info, var, Some(MethodSide::Class), VarScope::Instance),
        !holds_var(info, var, Some(MethodSide::Instance), VarScope::ClassInstance),
        holds_var(info, var, Some(MethodSide::Class), VarScope::ClassVariable) <==> holds_var(
            info,
            var,
            Some(MethodSide::Instance),
            VarScope::ClassVariable,
        ),
{
}

/// Tells whether `text` is in the list.
fn contains_text(list: &Vec<String>, text: &str) -> (res: bool)
    ensures
        res == texts(list@).contains(text@),
{
    let mut i: usize = 0;
    while i < list.len()
        invariant
            i <= list@.len(),
            forall|k: int| 0 <= k < i ==> #[trigger] texts(list@)[k] != text@,
        decreases list@.len() - i,
    {
        assert(texts(list@)[i as int] == list@[i as int]@);
        if same_text(list[i].as_str(), text) {
            return true;
        }
        i += 1;
    }
    false
}

/// Tells whether the first owner comes before the second, or is the same.
fn owner_precedes(name: &str, scope: VarScope, other: &(String, VarScope)) -> (res: bool)
    ensures
        res == owner_le((name@, scope), (other.0@, other.1)),
{
    if same_text(name, other.0.as_str()) {
        match (scope, other.1) {
            (VarScope::Instance, _) => true,
            (VarScope::ClassVariable, VarScope::Instance) => false,
            (VarScope::ClassVariable, _) => true,
            (VarScope::ClassInstance, VarScope::ClassInstance) => true,
            (VarScope::ClassInstance, _) => false,
        }
    } else {
        text_precedes(name, other.0.as_str())
    }
}

/// Puts an owner in its place in an ordered list.
fn insert_owner(owners: &mut Vec<(String, VarScope)>, name: &str, scope: VarScope)
    requires
        sorted_by(
            owner_views(old(owners)@),
            |a: (Seq<char>, VarScope), b: (Seq<char>, VarScope)| owner_le(a, b),
        ),
    ensures
        sorted_by(
            owner_views(final(owners)@),
            |a: (Seq<char>, VarScope), b: (Seq<char>, VarScope)| owner_le(a, b),
        ),
        owner_views(final(owners)@).to_multiset() == owner_views(
            old(owners)@,
        ).to_multiset().insert((name@, scope)),
{
    let ghost le = |a: (Seq<char>, VarScope), b: (Seq<char>, VarScope)| owner_le(a, b);
    let ghost before = owner_views(owners@);
    let ghost new = (name@, scope);
    let mut i: usize = 0;
    while i < owners.len() && !owner_precedes(name, scope, &owners[i])
        invariant
            before == owner_views(owners@),
            new == (name@, scope),
            i <= owners@.len(),
            forall|k: int| 0 <= k < i ==> !owner_le(new, #[trigger] before[k]),
        decreases owners@.len() - i,
    {
        assert(before[i as int] == (owners@[i as int].0@, owners@[i as int].1));
        i += 1;
    }
    let owned = name.to_owned();
    proof {
        if i < owners@.len() {
            assert(before[i as int] == (owners@[i as int].0@, owners@[i as int].1));
            assert(owner_le(new, before[i as int]));
        }
    }
    owners.insert(i, (owned, scope));
    proof {
        let after = owner_views(owners@);
        assert(after =~= before.insert(i as int, new));
        vstd::seq_lib::to_multiset_insert(before, i as int, new);
        lemma_owner_order();
        assert forall|j: int, k: int| 0 <= j < k < after.len() implies #[trigger] le(
            after[j],
            after[k],
        ) by {
            if k == i {
                assert(after[j] == before[j]);
                assert(!owner_le(new, before[j]));
                assert(le(new, before[j]) || le(before[j], new));
            } else if j == i {
                assert(after[k] == before[k - 1]);
                assert(owner_le(new, before[i as int]));
                if i < k - 1 {
                    assert(le(before[i as int], before[k - 1]));
                    assert(le(new, before[i as int]));
                }
            } else {
                let j0 = if j < i { j } else { j - 1 };
                let k0 = if k < i { k } else { k - 1 };
                assert(after[j] == before[j0]);
                assert(after[k] == before[k0]);
                assert(le(before[j0], before[k0]));
            }
        }
    }
}

/// Puts in what a class owns of the variable `var`.
fn add_owners(
    owners: &mut Vec<(String, VarScope)>,
    info: &ClassInfo,
    var: &str,
    side: Option<MethodSide>,
)
    requires
        sorted_by(
            owner_views(old(owners)@),
            |a: (Seq<char>, VarScope), b: (Seq<char>, VarScope)| owner_le(a, b),
        ),
    ensures
        sorted_by(
            owner_views(final(owners)@),
            |a: (Seq<char>, VarScope), b: (Seq<char>, VarScope)| owner_le(a, b),
        ),
        forall|owner: (Seq<char>, VarScope)| #[trigger]
            owner_views(final(owners)@).to_multiset().count(owner) == owner_views(
                old(owners)@,
            ).to_multiset().count(owner) + (if owner.0 == info@.name && holds_var(
                info@,
                var@,
                side,
                owner.1,
            ) {
                1nat
            } else {
                0nat
            }),
{
    broadcast use vstd::multiset::group_multiset_axioms;

    let allow_instance = match side {
        Some(MethodSide::Class) => false,
        _ => true,
    };
    let allow_class_side = match side {
        Some(MethodSide::Instance) => false,
        _ => true,
    };
    if allow_instance && contains_text(&info.inst_vars, var) {
        insert_owner(owners, info.name.as_str(), VarScope::Instance);
    }
    if contains_text(&info.class_vars, var) {
        insert_owner(owners, info.name.as_str(), VarScope::ClassVariable);
    }
    if allow_class_side && contains_text(&info.class_inst_vars, var) {
        insert_owner(owners, info.name.as_str(), VarScope::ClassInstance);
    }
}

/// Returns all (class_name, scope) pairs for classes of the index that declare `var`.
pub fn owners_in(index: &Index<ClassInfo>, var: &str, side: Option<MethodSide>) -> (res: Vec<
    (String, VarScope),
>)
    requires
        index.wf(),
    ensures
        lists_owners(owner_views(res@), info_views(index@), var@, side),
{
    let mut owners: Vec<(String, VarScope)> = Vec::new();
    let len = index.len();
    let ghost infos = info_views(index@);
    let ghost keys = index.keys();
    proof {
        index.keys_are_the_domain();
        broadcast use vstd::multiset::group_multiset_axioms;

        let empty = owner_views(owners@);
        assert(empty =~= Seq::<(Seq<char>, VarScope)>::empty());
        vstd::seq_lib::to_multiset_len(empty);
        assert forall|owner: (Seq<char>, VarScope)| #[trigger]
            empty.to_multiset().count(owner) == owning_among(
                keys.take(0).to_set(),
                infos,
                var@,
                side,
                owner,
            ).len() by {
            vstd::seq_lib::to_multiset_contains(empty, owner);
            assert(owning_among(keys.take(0).to_set(), infos, var@, side, owner) =~= Set::<
                Seq<char>,
            >::empty());
        }
    }
    let mut i: usize = 0;
    while i < len
        invariant
            index.wf(),
            keys == index.keys(),
            keys.no_duplicates(),
            infos == info_views(index@),
            len == keys.len(),
            i <= len,
            sorted_by(
                owner_views(owners@),
                |a: (Seq<char>, VarScope), b: (Seq<char>, VarScope)| owner_le(a, b),
            ),
            forall|owner: (Seq<char>, VarScope)| #[trigger]
                owner_views(owners@).to_multiset().count(owner) == owning_among(
                    keys.take(i as int).to_set(),
                    infos,
                    var@,
                    side,
                    owner,
                ).len(),
        decreases len - i,
    {
        let ghost before = owner_views(owners@);
        let info = index.value_at(i);
        add_owners(&mut owners, info, var, side);
        proof {
            let key = keys[i as int];
            let seen = keys.take(i as int).to_set();
            let next = keys.take(i + 1).to_set();
            assert(infos[key] == info@);
            assert(keys.take(i + 1) =~= keys.take(i as int).push(key));
            assert(!seen.contains(key)) by {
                if seen.contains(key) {
                    let m = choose|m: int| 0 <= m < i && keys.take(i as int)[m] == key;
                    assert(keys[m] == keys[i as int]);
                }
            }
            assert(next =~= seen.insert(key)) by {
                assert forall|k: Seq<char>| next.contains(k) <==> seen.insert(key).contains(k) by {
                    let list = keys.take(i + 1);
                    if next.contains(k) {
                        let m = choose|m: int| 0 <= m < list.len() && list[m] == k;
                        if m < i {
                            assert(keys.take(i as int)[m] == k);
                        }
                    }
                    if seen.contains(k) {
                        let m = choose|m: int| 0 <= m < i && keys.take(i as int)[m] == k;
                        assert(list[m] == k);
                    }
                    assert(list[i as int] == key);
                }
            }
            vstd::seq_lib::seq_to_set_is_finite(keys.take(i as int));
            assert forall|owner: (Seq<char>, VarScope)| #[trigger]
                owner_views(owners@).to_multiset().count(owner) == owning_among(
                    next,
                    infos,
                    var@,
                    side,
                    owner,
                ).len() by {
                let old_set = owning_among(seen, infos, var@, side, owner);
                let new_set = owning_among(next, infos, var@, side, owner);
                seen.lemma_len_filter(
                    |k: Seq<char>|
                        infos[k].name == owner.0 && holds_var(infos[k], var@, side, owner.1),
                );
                assert(before.to_multiset().count(owner) == old_set.len());
                if owner.0 == info@.name && holds_var(info@, var@, side, owner.1) {
                    assert(new_set =~= old_set.insert(key));
                } else {
                    assert(new_set =~= old_set);
                }
            }
        }
        i += 1;
    }
    proof {
        index.keys_are_the_domain();
        assert(keys.take(len as int) =~= keys);
        assert(infos.dom() =~= index@.dom());
    }
    owners
}

} // verus!
