//! The access-control state and its operations: group membership, role
//! assignment, permission grant, and access resolution.

use crate::alist::alist_find;
use crate::alist::alist_has_key;
use crate::alist::alist_index;
use crate::alist::alist_keys_unique;
use crate::alist::alist_push_at;
use crate::alist::alist_remove_at;
use crate::alist::alist_vals;
use crate::alist::lemma_alist_at;
use crate::alist::lemma_map_values_push;
use crate::alist::lemma_map_values_remove;
use crate::alist::lemma_push_contains;
use crate::alist::lemma_remove_contains;
use crate::alist::lemma_remove_no_duplicates;
use crate::ids::contains_id;
use crate::ids::id_eq;
use crate::ids::id_views;
use crate::ids::lemma_id_views_contains;
use crate::ids::sorted_insert;
use crate::ids::strictly_sorted;
use crate::ids::DIDType;
use crate::types::Error;
use crate::types::Permission;
use crate::types::Role;
use crate::types::UserGroupEntity;
use vstd::prelude::*;

verus! {

/// The access-control state: four relations keyed by 32-byte identifiers.
///
/// `map_group_has` and `map_user_group_entity_belong` are the forward and
/// reverse sides of one membership relation and are always mutated
/// together. `map_user_group_to_role` holds the roles granted directly to
/// a user or a group, and `map_role_to_permission` the permissions each
/// role carries.
pub struct RBAC {
    map_group_has: Vec<(DIDType, Vec<UserGroupEntity>)>,
    map_user_group_entity_belong: Vec<(DIDType, Vec<DIDType>)>,
    map_user_group_to_role: Vec<(DIDType, Vec<Role>)>,
    map_role_to_permission: Vec<(DIDType, Vec<Permission>)>,
}

impl RBAC {
    /// Whether `g` keys a membership entry: `g` was granted a member at
    /// some point (the key stays even once its member list is emptied).
    pub closed spec fn is_group_key(self, g: Seq<u8>) -> bool {
        alist_has_key(self.map_group_has@, g)
    }

    /// The members recorded under group `g`, in insertion order.
    pub closed spec fn members_of(self, g: Seq<u8>) -> Seq<Seq<u8>> {
        alist_vals(self.map_group_has@, g).map_values(|e: UserGroupEntity| e.id@)
    }

    /// Whether `u` keys a reverse-membership entry: `u` was recorded as a
    /// member at some point.
    pub closed spec fn is_member_key(self, u: Seq<u8>) -> bool {
        alist_has_key(self.map_user_group_entity_belong@, u)
    }

    /// The groups recorded for member `u`, in insertion order.
    pub closed spec fn groups_of(self, u: Seq<u8>) -> Seq<Seq<u8>> {
        alist_vals(self.map_user_group_entity_belong@, u).map_values(|d: DIDType| d@)
    }

    /// Whether the membership edge from group `g` to member `u` exists.
    pub open spec fn member_edge(self, g: Seq<u8>, u: Seq<u8>) -> bool {
        self.members_of(g).contains(u)
    }

    /// Whether the reverse index records member `u` under group `g`.
    pub open spec fn belong_edge(self, u: Seq<u8>, g: Seq<u8>) -> bool {
        self.groups_of(u).contains(g)
    }

    /// Whether `x` keys a role entry.
    pub closed spec fn is_role_key(self, x: Seq<u8>) -> bool {
        alist_has_key(self.map_user_group_to_role@, x)
    }

    /// The roles granted directly to `x`, in insertion order.
    pub closed spec fn roles_of(self, x: Seq<u8>) -> Seq<Seq<u8>> {
        alist_vals(self.map_user_group_to_role@, x).map_values(|r: Role| r.id@)
    }

    /// Whether role `role` was granted directly to `x`.
    pub open spec fn role_edge(self, x: Seq<u8>, role: Seq<u8>) -> bool {
        self.roles_of(x).contains(role)
    }

    /// Whether `role` keys a permission entry.
    pub closed spec fn is_perm_key(self, role: Seq<u8>) -> bool {
        alist_has_key(self.map_role_to_permission@, role)
    }

    /// The permissions granted to `role`, in insertion order.
    pub closed spec fn permissions_of(self, role: Seq<u8>) -> Seq<Seq<u8>> {
        alist_vals(self.map_role_to_permission@, role).map_values(|p: Permission| p.id@)
    }

    /// Whether permission `p` was granted to `role`.
    pub open spec fn perm_edge(self, role: Seq<u8>, p: Seq<u8>) -> bool {
        self.permissions_of(role).contains(p)
    }

    /// A role held by `x` directly or through a group `x` belongs to.
    pub open spec fn effective_role(self, x: Seq<u8>, role: Seq<u8>) -> bool {
        self.role_edge(x, role) || exists|g: Seq<u8>|
            #[trigger] self.belong_edge(x, g) && self.role_edge(g, role)
    }

    /// Whether `x` holds permission `p` through some effective role.
    pub open spec fn allowed(self, x: Seq<u8>, p: Seq<u8>) -> bool {
        exists|role: Seq<u8>| #[trigger] self.effective_role(x, role) && self.perm_edge(role, p)
    }

    spec fn gh_ok(self) -> bool {
        &&& alist_keys_unique(self.map_group_has@)
        &&& forall|g: Seq<u8>| (#[trigger] self.members_of(g)).no_duplicates()
    }

    spec fn bl_ok(self) -> bool {
        &&& alist_keys_unique(self.map_user_group_entity_belong@)
        &&& forall|u: Seq<u8>| (#[trigger] self.groups_of(u)).no_duplicates()
    }

    spec fn rl_ok(self) -> bool {
        &&& alist_keys_unique(self.map_user_group_to_role@)
        &&& forall|x: Seq<u8>| (#[trigger] self.roles_of(x)).no_duplicates()
    }

    spec fn pm_ok(self) -> bool {
        &&& alist_keys_unique(self.map_role_to_permission@)
        &&& forall|r: Seq<u8>| (#[trigger] self.permissions_of(r)).no_duplicates()
    }

    spec fn mirrored(self) -> bool {
        forall|g: Seq<u8>, u: Seq<u8>|
            #![trigger self.member_edge(g, u)]
            #![trigger self.belong_edge(u, g)]
            self.member_edge(g, u) <==> self.belong_edge(u, g)
    }

    spec fn namespaces_disjoint(self) -> bool {
        forall|x: Seq<u8>|
            #![trigger self.is_group_key(x)]
            #![trigger self.is_member_key(x)]
            !(self.is_group_key(x) && self.is_member_key(x))
    }

    /// The state invariant: every relation has distinct keys and
    /// duplicate-free edges, the forward and reverse membership indexes
    /// mirror one another, and no identifier is a group and a member at
    /// once. Constructors establish it and every operation preserves it.
    pub closed spec fn wf(self) -> bool {
        &&& self.gh_ok()
        &&& self.bl_ok()
        &&& self.rl_ok()
        &&& self.pm_ok()
        &&& self.mirrored()
        &&& self.namespaces_disjoint()
    }

    /// The membership relation of `self` is that of `prior`.
    pub open spec fn same_membership(self, prior: RBAC) -> bool {
        &&& forall|k: Seq<u8>| (#[trigger] self.members_of(k)) == prior.members_of(k)
        &&& forall|k: Seq<u8>| (#[trigger] self.groups_of(k)) == prior.groups_of(k)
        &&& forall|k: Seq<u8>| (#[trigger] self.is_group_key(k)) <==> prior.is_group_key(k)
        &&& forall|k: Seq<u8>| (#[trigger] self.is_member_key(k)) <==> prior.is_member_key(k)
    }

    /// The role relation of `self` is that of `prior`.
    pub open spec fn same_roles(self, prior: RBAC) -> bool {
        &&& forall|k: Seq<u8>| (#[trigger] self.roles_of(k)) == prior.roles_of(k)
        &&& forall|k: Seq<u8>| (#[trigger] self.is_role_key(k)) <==> prior.is_role_key(k)
    }

    /// The permission relation of `self` is that of `prior`.
    pub open spec fn same_permissions(self, prior: RBAC) -> bool {
        &&& forall|k: Seq<u8>| (#[trigger] self.permissions_of(k)) == prior.permissions_of(k)
        &&& forall|k: Seq<u8>| (#[trigger] self.is_perm_key(k)) <==> prior.is_perm_key(k)
    }

    /// `self` is `prior` with the one membership edge `(g, u)` added.
    pub open spec fn membership_granted(self, prior: RBAC, g: Seq<u8>, u: Seq<u8>) -> bool {
        &&& self.members_of(g) == prior.members_of(g).push(u)
        &&& forall|k: Seq<u8>| k != g ==> (#[trigger] self.members_of(k)) == prior.members_of(k)
        &&& self.groups_of(u) == prior.groups_of(u).push(g)
        &&& forall|k: Seq<u8>| k != u ==> (#[trigger] self.groups_of(k)) == prior.groups_of(k)
        &&& forall|k: Seq<u8>| (#[trigger] self.is_group_key(k)) <==> prior.is_group_key(k) || k == g
        &&& forall|k: Seq<u8>| (#[trigger] self.is_member_key(k)) <==> prior.is_member_key(k) || k
            == u
        &&& forall|g2: Seq<u8>, u2: Seq<u8>|
            (#[trigger] self.member_edge(g2, u2)) <==> prior.member_edge(g2, u2) || (g2 == g && u2
                == u)
    }

    /// `self` is `prior` with the one membership edge `(g, u)` removed;
    /// every key stays known, even emptied.
    pub open spec fn membership_revoked(self, prior: RBAC, g: Seq<u8>, u: Seq<u8>) -> bool {
        &&& self.members_of(g) == prior.members_of(g).remove(prior.members_of(g).index_of(u))
        &&& forall|k: Seq<u8>| k != g ==> (#[trigger] self.members_of(k)) == prior.members_of(k)
        &&& self.groups_of(u) == prior.groups_of(u).remove(prior.groups_of(u).index_of(g))
        &&& forall|k: Seq<u8>| k != u ==> (#[trigger] self.groups_of(k)) == prior.groups_of(k)
        &&& forall|k: Seq<u8>| (#[trigger] self.is_group_key(k)) <==> prior.is_group_key(k)
        &&& forall|k: Seq<u8>| (#[trigger] self.is_member_key(k)) <==> prior.is_member_key(k)
        &&& forall|g2: Seq<u8>, u2: Seq<u8>|
            (#[trigger] self.member_edge(g2, u2)) <==> prior.member_edge(g2, u2) && !(g2 == g && u2
                == u)
    }

    /// `self` is `prior` with the one role edge `(x, role)` added.
    pub open spec fn role_granted(self, prior: RBAC, x: Seq<u8>, role: Seq<u8>) -> bool {
        &&& self.roles_of(x) == prior.roles_of(x).push(role)
        &&& forall|k: Seq<u8>| k != x ==> (#[trigger] self.roles_of(k)) == prior.roles_of(k)
        &&& forall|k: Seq<u8>| (#[trigger] self.is_role_key(k)) <==> prior.is_role_key(k) || k == x
        &&& forall|y: Seq<u8>, r2: Seq<u8>|
            (#[trigger] self.role_edge(y, r2)) <==> prior.role_edge(y, r2) || (y == x && r2 == role)
    }

    /// `self` is `prior` with the one role edge `(x, role)` removed; the
    /// key stays known, even emptied.
    pub open spec fn role_revoked(self, prior: RBAC, x: Seq<u8>, role: Seq<u8>) -> bool {
        &&& self.roles_of(x) == prior.roles_of(x).remove(prior.roles_of(x).index_of(role))
        &&& forall|k: Seq<u8>| k != x ==> (#[trigger] self.roles_of(k)) == prior.roles_of(k)
        &&& forall|k: Seq<u8>| (#[trigger] self.is_role_key(k)) <==> prior.is_role_key(k)
        &&& forall|y: Seq<u8>, r2: Seq<u8>|
            (#[trigger] self.role_edge(y, r2)) <==> prior.role_edge(y, r2) && !(y == x && r2
                == role)
    }

    /// `self` is `prior` with the one permission edge `(role, p)` added.
    pub open spec fn permission_granted(self, prior: RBAC, role: Seq<u8>, p: Seq<u8>) -> bool {
        &&& self.permissions_of(role) == prior.permissions_of(role).push(p)
        &&& forall|k: Seq<u8>| k != role ==> (#[trigger] self.permissions_of(k))
            == prior.permissions_of(k)
        &&& forall|k: Seq<u8>| (#[trigger] self.is_perm_key(k)) <==> prior.is_perm_key(k) || k
            == role
        &&& forall|y: Seq<u8>, p2: Seq<u8>|
            (#[trigger] self.perm_edge(y, p2)) <==> prior.perm_edge(y, p2) || (y == role && p2 == p)
    }

    /// `self` is `prior` with the one permission edge `(role, p)` removed;
    /// the key stays known, even emptied.
    pub open spec fn permission_revoked(self, prior: RBAC, role: Seq<u8>, p: Seq<u8>) -> bool {
        &&& self.permissions_of(role) == prior.permissions_of(role).remove(
            prior.permissions_of(role).index_of(p),
        )
        &&& forall|k: Seq<u8>| k != role ==> (#[trigger] self.permissions_of(k))
            == prior.permissions_of(k)
        &&& forall|k: Seq<u8>| (#[trigger] self.is_perm_key(k)) <==> prior.is_perm_key(k)
        &&& forall|y: Seq<u8>, p2: Seq<u8>|
            (#[trigger] self.perm_edge(y, p2)) <==> prior.perm_edge(y, p2) && !(y == role && p2
                == p)
    }

    /// A fresh instance: every relation empty.
    pub fn new() -> (r: RBAC)
        ensures
            r.wf(),
            forall|g: Seq<u8>| (#[trigger] r.members_of(g)) == Seq::<Seq<u8>>::empty(),
            forall|u: Seq<u8>| (#[trigger] r.groups_of(u)) == Seq::<Seq<u8>>::empty(),
            forall|x: Seq<u8>| (#[trigger] r.roles_of(x)) == Seq::<Seq<u8>>::empty(),
            forall|p: Seq<u8>| (#[trigger] r.permissions_of(p)) == Seq::<Seq<u8>>::empty(),
            forall|k: Seq<u8>| !(#[trigger] r.is_group_key(k)),
            forall|k: Seq<u8>| !(#[trigger] r.is_member_key(k)),
            forall|k: Seq<u8>| !(#[trigger] r.is_role_key(k)),
            forall|k: Seq<u8>| !(#[trigger] r.is_perm_key(k)),
    {
        let r = RBAC {
            map_group_has: Vec::new(),
            map_user_group_entity_belong: Vec::new(),
            map_user_group_to_role: Vec::new(),
            map_role_to_permission: Vec::new(),
        };
        proof {
            lemma_fresh_model(r);
        }
        r
    }

    /// A fresh instance, as `new`.
    pub fn default() -> (r: RBAC)
        ensures
            r.wf(),
            forall|g: Seq<u8>| (#[trigger] r.members_of(g)) == Seq::<Seq<u8>>::empty(),
            forall|u: Seq<u8>| (#[trigger] r.groups_of(u)) == Seq::<Seq<u8>>::empty(),
            forall|x: Seq<u8>| (#[trigger] r.roles_of(x)) == Seq::<Seq<u8>>::empty(),
            forall|p: Seq<u8>| (#[trigger] r.permissions_of(p)) == Seq::<Seq<u8>>::empty(),
            forall|k: Seq<u8>| !(#[trigger] r.is_group_key(k)),
            forall|k: Seq<u8>| !(#[trigger] r.is_member_key(k)),
            forall|k: Seq<u8>| !(#[trigger] r.is_role_key(k)),
            forall|k: Seq<u8>| !(#[trigger] r.is_perm_key(k)),
    {
        RBAC::new()
    }

    /// Records `user_did` under `group_did` in the forward index.
    fn insert_group_has(&mut self, group_did: &DIDType, user_did: &DIDType) -> (r: Result<
        (),
        Error,
    >)
        requires
            old(self).gh_ok(),
        ensures
            final(self).gh_ok(),
            final(self).map_user_group_entity_belong == old(self).map_user_group_entity_belong,
            final(self).map_user_group_to_role == old(self).map_user_group_to_role,
            final(self).map_role_to_permission == old(self).map_role_to_permission,
            old(self).member_edge(group_did@, user_did@) ==> r == Err::<(), Error>(
                Error::GroupHasUserOrGroupAlready,
            ) && *final(self) == *old(self),
            !old(self).member_edge(group_did@, user_did@) ==> {
                &&& r == Ok::<(), Error>(())
                &&& final(self).members_of(group_did@) == old(self).members_of(group_did@).push(
                    user_did@,
                )
                &&& forall|k: Seq<u8>|
                    k != group_did@ ==> (#[trigger] final(self).members_of(k)) == old(
                        self,
                    ).members_of(k)
                &&& forall|k: Seq<u8>|
                    (#[trigger] final(self).is_group_key(k)) <==> old(self).is_group_key(k) || k
                        == group_did@
            },
    {
        let ghost f = |e: UserGroupEntity| e.id@;
        let user_group = UserGroupEntity { id: *user_did };
        match alist_find(&self.map_group_has, group_did) {
            None => {
                proof {
                    assert(old(self).members_of(group_did@) =~= Seq::<Seq<u8>>::empty()) by {
                        assert(Seq::<UserGroupEntity>::empty().map_values(f) =~= Seq::<
                            Seq<u8>,
                        >::empty());
                    }
                }
                let mut vals: Vec<UserGroupEntity> = Vec::new();
                vals.push(user_group);
                let ghost before = self.map_group_has@;
                let ghost gvals = vals@;
                self.map_group_has.push((*group_did, vals));
                proof {
                    let m = self.map_group_has@;
                    let n = before.len() as int;
                    assert(m[n].0@ == group_did@ && m[n].1@ == gvals);
                    assert(alist_keys_unique(m)) by {
                        assert forall|p: int, q: int| 0 <= p < q < m.len() implies m[p].0@
                            != m[q].0@ by {
                            assert(m[p] == before[p]);
                            if q < n {
                                assert(m[q] == before[q]);
                            } else {
                                assert(before[p].0@ != group_did@);
                            }
                        }
                    }
                    lemma_alist_at(m, n);
                    assert(self.members_of(group_did@) == old(self).members_of(group_did@).push(
                        user_did@,
                    )) by {
                        assert(alist_vals(m, group_did@) == gvals);
                        assert(gvals =~= Seq::<UserGroupEntity>::empty().push(user_group));
                        lemma_map_values_push(Seq::<UserGroupEntity>::empty(), f, user_group);
                        assert(gvals.map_values(f) == Seq::<UserGroupEntity>::empty().map_values(
                            f,
                        ).push(user_did@));
                        assert(Seq::<UserGroupEntity>::empty().map_values(f) =~= Seq::<
                            Seq<u8>,
                        >::empty());
                    }
                    assert forall|k: Seq<u8>| k != group_did@ implies (#[trigger] self.members_of(
                        k,
                    )) == old(self).members_of(k) by {
                        if alist_has_key(before, k) {
                            let w = alist_index(before, k);
                            assert(0 <= w < n && before[w].0@ == k);
                            assert(m[w] == before[w]);
                            lemma_alist_at(m, w);
                            lemma_alist_at(before, w);
                        } else {
                            assert(!alist_has_key(m, k)) by {
                                if alist_has_key(m, k) {
                                    let w = choose|w: int| 0 <= w < m.len() && (#[trigger] m[w]).0@
                                        == k;
                                    if w < n {
                                        assert(before[w].0@ == k);
                                        assert(alist_has_key(before, k));
                                    }
                                }
                            }
                        }
                    }
                    assert forall|k: Seq<u8>|
                        (#[trigger] self.is_group_key(k)) <==> old(self).is_group_key(k) || k
                            == group_did@ by {
                        if alist_has_key(before, k) {
                            let w = alist_index(before, k);
                            assert(0 <= w < n && before[w].0@ == k);
                            assert(m[w] == before[w]);
                            assert(alist_has_key(m, k));
                        }
                        if k == group_did@ {
                            assert(m[n].0@ == k);
                            assert(alist_has_key(m, k));
                        }
                        if alist_has_key(m, k) && k != group_did@ {
                            let w = choose|w: int| 0 <= w < m.len() && (#[trigger] m[w]).0@ == k;
                            assert(m[w].0@ == k);
                            assert(w < n);
                            assert(before[w].0@ == k);
                            assert(alist_has_key(before, k));
                        }
                    }
                    assert forall|k: Seq<u8>| (#[trigger] self.members_of(k)).no_duplicates() by {
                        if k == group_did@ {
                            assert(self.members_of(k) == old(self).members_of(k).push(user_did@));
                            assert(old(self).members_of(k).len() == 0);
                        } else {
                            assert(self.members_of(k) == old(self).members_of(k));
                            assert(old(self).members_of(k).no_duplicates());
                        }
                    }
                }
                Ok(())
            },
            Some(i) => {
                proof {
                    lemma_alist_at(self.map_group_has@, i as int);
                    assert(old(self).members_of(group_did@) == self.map_group_has@[i as int].1@
                        .map_values(f));
                }
                match entity_position(&self.map_group_has[i].1, user_did) {
                    Some(j) => {
                        proof {
                            let vals = self.map_group_has@[i as int].1@;
                            assert(vals.map_values(f)[j as int] == user_did@);
                            assert(old(self).member_edge(group_did@, user_did@));
                        }
                        Err(Error::GroupHasUserOrGroupAlready)
                    },
                    None => {
                        proof {
                            let vals = self.map_group_has@[i as int].1@;
                            assert(!old(self).member_edge(group_did@, user_did@)) by {
                                if vals.map_values(f).contains(user_did@) {
                                    let w = choose|w: int|
                                        0 <= w < vals.map_values(f).len() && vals.map_values(f)[w]
                                            == user_did@;
                                    assert(vals[w].id@ == user_did@);
                                }
                            }
                        }
                        let ghost before = self.map_group_has@;
                        let ghost ii = i as int;
                        alist_push_at(&mut self.map_group_has, i, user_group);
                        proof {
                            let m = self.map_group_has@;
                            assert forall|p: int| 0 <= p < m.len() implies (#[trigger] m[p]).0
                                == before[p].0 by {
                                if p != ii {
                                    assert(m[p] == before[p]);
                                }
                            }
                            assert(alist_keys_unique(m)) by {
                                assert forall|p: int, q: int| 0 <= p < q < m.len() implies m[p].0@
                                    != m[q].0@ by {
                                    assert(m[p].0 == before[p].0 && m[q].0 == before[q].0);
                                }
                            }
                            lemma_alist_at(before, ii);
                            lemma_alist_at(m, ii);
                            lemma_map_values_push(before[ii].1@, f, user_group);
                            assert(self.members_of(group_did@) == old(self).members_of(
                                group_did@,
                            ).push(user_did@)) by {
                                assert(alist_vals(m, group_did@) == m[ii].1@);
                                assert(m[ii].1@ == before[ii].1@.push(user_group));
                                assert(m[ii].1@.map_values(f) == before[ii].1@.map_values(f).push(
                                    user_did@,
                                ));
                            }
                            assert forall|k: Seq<u8>| k != group_did@ implies (
                            #[trigger] self.members_of(k)) == old(self).members_of(k) by {
                                if alist_has_key(before, k) {
                                    let w = alist_index(before, k);
                                    assert(0 <= w < before.len() && before[w].0@ == k);
                                    assert(w != ii);
                                    assert(m[w] == before[w]);
                                    lemma_alist_at(m, w);
                                    lemma_alist_at(before, w);
                                } else {
                                    assert(!alist_has_key(m, k)) by {
                                        if alist_has_key(m, k) {
                                            let w = choose|w: int|
                                                0 <= w < m.len() && (#[trigger] m[w]).0@ == k;
                                            assert(before[w].0@ == k);
                                            assert(alist_has_key(before, k));
                                        }
                                    }
                                }
                            }
                            assert forall|k: Seq<u8>|
                                (#[trigger] self.is_group_key(k)) <==> old(self).is_group_key(k)
                                    || k == group_did@ by {
                                if alist_has_key(before, k) {
                                    let w = alist_index(before, k);
                                    assert(0 <= w < m.len() && m[w].0@ == k);
                                    assert(alist_has_key(m, k));
                                }
                                if alist_has_key(m, k) {
                                    let w = choose|w: int| 0 <= w < m.len() && (#[trigger] m[w]).0@
                                        == k;
                                    assert(before[w].0@ == k);
                                    assert(alist_has_key(before, k));
                                }
                                if k == group_did@ {
                                    assert(alist_has_key(before, k));
                                }
                            }
                            assert forall|k: Seq<u8>|
                                (#[trigger] self.members_of(k)).no_duplicates() by {
                                if k == group_did@ {
                                    let s = old(self).members_of(k);
                                    assert(s.no_duplicates());
                                    assert(self.members_of(k) == s.push(user_did@));
                                    assert forall|p: int, q: int|
                                        0 <= p < s.push(user_did@).len() && 0 <= q < s.push(
                                            user_did@,
                                        ).len() && p != q implies s.push(user_did@)[p] != s.push(
                                        user_did@,
                                    )[q] by {
                                        if p < s.len() && q < s.len() {
                                            assert(s[p] != s[q]);
                                        } else if p < s.len() {
                                            assert(s.push(user_did@)[q] == user_did@);
                                            assert(s[p] != user_did@) by {
                                                if s[p] == user_did@ {
                                                    assert(s.contains(user_did@));
                                                }
                                            }
                                        } else {
                                            assert(s.push(user_did@)[p] == user_did@);
                                            assert(s[q] != user_did@) by {
                                                if s[q] == user_did@ {
                                                    assert(s.contains(user_did@));
                                                }
                                            }
                                        }
                                    }
                                } else {
                                    assert(self.members_of(k) == old(self).members_of(k));
                                    assert(old(self).members_of(k).no_duplicates());
                                }
                            }
                        }
                        Ok(())
                    },
                }
            },
        }
    }

    /// Records `group_did` under `user_did` in the reverse index.
    fn insert_user_group_belongs(&mut self, user_did: &DIDType, group_did: &DIDType) -> (r: Result<
        (),
        Error,
    >)
        requires
            old(self).bl_ok(),
        ensures
            final(self).bl_ok(),
            final(self).map_group_has == old(self).map_group_has,
            final(self).map_user_group_to_role == old(self).map_user_group_to_role,
            final(self).map_role_to_permission == old(self).map_role_to_permission,
            old(self).belong_edge(user_did@, group_did@) ==> r == Err::<(), Error>(
                Error::UserOrGroupBelongsGroupAlready,
            ) && *final(self) == *old(self),
            !old(self).belong_edge(user_did@, group_did@) ==> {
                &&& r == Ok::<(), Error>(())
                &&& final(self).groups_of(user_did@) == old(self).groups_of(user_did@).push(
                    group_did@,
                )
                &&& forall|k: Seq<u8>|
                    k != user_did@ ==> (#[trigger] final(self).groups_of(k)) == old(self).groups_of(
                        k,
                    )
                &&& forall|k: Seq<u8>|
                    (#[trigger] final(self).is_member_key(k)) <==> old(self).is_member_key(k) || k
                        == user_did@
            },
    {
        let ghost f = |d: DIDType| d@;
        match alist_find(&self.map_user_group_entity_belong, user_did) {
            None => {
                proof {
                    assert(old(self).groups_of(user_did@) =~= Seq::<Seq<u8>>::empty()) by {
                        assert(Seq::<DIDType>::empty().map_values(f) =~= Seq::<Seq<u8>>::empty());
                    }
                }
                let mut vals: Vec<DIDType> = Vec::new();
                vals.push(*group_did);
                let ghost before = self.map_user_group_entity_belong@;
                let ghost gvals = vals@;
                self.map_user_group_entity_belong.push((*user_did, vals));
                proof {
                    let m = self.map_user_group_entity_belong@;
                    let n = before.len() as int;
                    assert(m[n].0@ == user_did@ && m[n].1@ == gvals);
                    assert(alist_keys_unique(m)) by {
                        assert forall|p: int, q: int| 0 <= p < q < m.len() implies m[p].0@
                            != m[q].0@ by {
                            assert(m[p] == before[p]);
                            if q < n {
                                assert(m[q] == before[q]);
                            } else {
                                assert(before[p].0@ != user_did@);
                            }
                        }
                    }
                    lemma_alist_at(m, n);
                    assert(self.groups_of(user_did@) == old(self).groups_of(user_did@).push(
                        group_did@,
                    )) by {
                        assert(alist_vals(m, user_did@) == gvals);
                        assert(gvals =~= Seq::<DIDType>::empty().push(*group_did));
                        lemma_map_values_push(Seq::<DIDType>::empty(), f, *group_did);
                        assert(gvals.map_values(f) == Seq::<DIDType>::empty().map_values(f).push(
                            group_did@,
                        ));
                        assert(Seq::<DIDType>::empty().map_values(f) =~= Seq::<Seq<u8>>::empty());
                    }
                    assert forall|k: Seq<u8>| k != user_did@ implies (#[trigger] self.groups_of(k))
                        == old(self).groups_of(k) by {
                        if alist_has_key(before, k) {
                            let w = alist_index(before, k);
                            assert(0 <= w < n && before[w].0@ == k);
                            assert(m[w] == before[w]);
                            lemma_alist_at(m, w);
                            lemma_alist_at(before, w);
                        } else {
                            assert(!alist_has_key(m, k)) by {
                                if alist_has_key(m, k) {
                                    let w = choose|w: int| 0 <= w < m.len() && (#[trigger] m[w]).0@
                                        == k;
                                    if w < n {
                                        assert(before[w].0@ == k);
                                        assert(alist_has_key(before, k));
                                    }
                                }
                            }
                        }
                    }
                    assert forall|k: Seq<u8>|
                        (#[trigger] self.is_member_key(k)) <==> old(self).is_member_key(k) || k
                            == user_did@ by {
                        if alist_has_key(before, k) {
                            let w = alist_index(before, k);
                            assert(0 <= w < n && before[w].0@ == k);
                            assert(m[w] == before[w]);
                            assert(alist_has_key(m, k));
                        }
                        if k == user_did@ {
                            assert(m[n].0@ == k);
                            assert(alist_has_key(m, k));
                        }
                        if alist_has_key(m, k) && k != user_did@ {
                            let w = choose|w: int| 0 <= w < m.len() && (#[trigger] m[w]).0@ == k;
                            assert(m[w].0@ == k);
                            assert(w < n);
                            assert(before[w].0@ == k);
                            assert(alist_has_key(before, k));
                        }
                    }
                    assert forall|k: Seq<u8>| (#[trigger] self.groups_of(k)).no_duplicates() by {
                        if k == user_did@ {
                            assert(self.groups_of(k) == old(self).groups_of(k).push(group_did@));
                            assert(old(self).groups_of(k).len() == 0);
                        } else {
                            assert(self.groups_of(k) == old(self).groups_of(k));
                            assert(old(self).groups_of(k).no_duplicates());
                        }
                    }
                }
                Ok(())
            },
            Some(i) => {
                proof {
                    lemma_alist_at(self.map_user_group_entity_belong@, i as int);
                    assert(old(self).groups_of(user_did@) == self.map_user_group_entity_belong@[i
                        as int].1@.map_values(f));
                }
                match did_position(&self.map_user_group_entity_belong[i].1, group_did) {
                    Some(j) => {
                        proof {
                            let vals = self.map_user_group_entity_belong@[i as int].1@;
                            assert(vals.map_values(f)[j as int] == group_did@);
                            assert(old(self).belong_edge(user_did@, group_did@));
                        }
                        Err(Error::UserOrGroupBelongsGroupAlready)
                    },
                    None => {
                        proof {
                            let vals = self.map_user_group_entity_belong@[i as int].1@;
                            assert(!old(self).belong_edge(user_did@, group_did@)) by {
                                if vals.map_values(f).contains(group_did@) {
                                    let w = choose|w: int|
                                        0 <= w < vals.map_values(f).len() && vals.map_values(f)[w]
                                            == group_did@;
                                    assert(vals[w]@ == group_did@);
                                }
                            }
                        }
                        let ghost before = self.map_user_group_entity_belong@;
                        let ghost ii = i as int;
                        alist_push_at(&mut self.map_user_group_entity_belong, i, *group_did);
                        proof {
                            let m = self.map_user_group_entity_belong@;
                            assert forall|p: int| 0 <= p < m.len() implies (#[trigger] m[p]).0
                                == before[p].0 by {
                                if p != ii {
                                    assert(m[p] == before[p]);
                                }
                            }
                            assert(alist_keys_unique(m)) by {
                                assert forall|p: int, q: int| 0 <= p < q < m.len() implies m[p].0@
                                    != m[q].0@ by {
                                    assert(m[p].0 == before[p].0 && m[q].0 == before[q].0);
                                }
                            }
                            lemma_alist_at(before, ii);
                            lemma_alist_at(m, ii);
                            lemma_map_values_push(before[ii].1@, f, *group_did);
                            assert(self.groups_of(user_did@) == old(self).groups_of(
                                user_did@,
                            ).push(group_did@)) by {
                                assert(alist_vals(m, user_did@) == m[ii].1@);
                                assert(m[ii].1@ == before[ii].1@.push(*group_did));
                                assert(m[ii].1@.map_values(f) == before[ii].1@.map_values(f).push(
                                    group_did@,
                                ));
                            }
                            assert forall|k: Seq<u8>| k != user_did@ implies (
                            #[trigger] self.groups_of(k)) == old(self).groups_of(k) by {
                                if alist_has_key(before, k) {
                                    let w = alist_index(before, k);
                                    assert(0 <= w < before.len() && before[w].0@ == k);
                                    assert(w != ii);
                                    assert(m[w] == before[w]);
                                    lemma_alist_at(m, w);
                                    lemma_alist_at(before, w);
                                } else {
                                    assert(!alist_has_key(m, k)) by {
                                        if alist_has_key(m, k) {
                                            let w = choose|w: int|
                                                0 <= w < m.len() && (#[trigger] m[w]).0@ == k;
                                            assert(before[w].0@ == k);
                                            assert(alist_has_key(before, k));
                                        }
                                    }
                                }
                            }
                            assert forall|k: Seq<u8>|
                                (#[trigger] self.is_member_key(k)) <==> old(self).is_member_key(k)
                                    || k == user_did@ by {
                                if alist_has_key(before, k) {
                                    let w = alist_index(before, k);
                                    assert(0 <= w < m.len() && m[w].0@ == k);
                                    assert(alist_has_key(m, k));
                                }
                                if alist_has_key(m, k) {
                                    let w = choose|w: int| 0 <= w < m.len() && (#[trigger] m[w]).0@
                                        == k;
                                    assert(before[w].0@ == k);
                                    assert(alist_has_key(before, k));
                                }
                                if k == user_did@ {
                                    assert(alist_has_key(before, k));
                                }
                            }
                            assert forall|k: Seq<u8>|
                                (#[trigger] self.groups_of(k)).no_duplicates() by {
                                if k == user_did@ {
                                    let s = old(self).groups_of(k);
                                    assert(s.no_duplicates());
                                    assert(self.groups_of(k) == s.push(group_did@));
                                    assert forall|p: int, q: int|
                                        0 <= p < s.push(group_did@).len() && 0 <= q < s.push(
                                            group_did@,
                                        ).len() && p != q implies s.push(group_did@)[p] != s.push(
                                        group_did@,
                                    )[q] by {
                                        if p < s.len() && q < s.len() {
                                            assert(s[p] != s[q]);
                                        } else if p < s.len() {
                                            assert(s.push(group_did@)[q] == group_did@);
                                            assert(s[p] != group_did@) by {
                                                if s[p] == group_did@ {
                                                    assert(s.contains(group_did@));
                                                }
                                            }
                                        } else {
                                            assert(s.push(group_did@)[p] == group_did@);
                                            assert(s[q] != group_did@) by {
                                                if s[q] == group_did@ {
                                                    assert(s.contains(group_did@));
                                                }
                                            }
                                        }
                                    }
                                } else {
                                    assert(self.groups_of(k) == old(self).groups_of(k));
                                    assert(old(self).groups_of(k).no_duplicates());
                                }
                            }
                        }
                        Ok(())
                    },
                }
            },
        }
    }

    /// Adds `user_did` as a member of `group_did`, maintaining both sides
    /// of the membership relation.
    ///
    /// Rejected with `UserGroupAreSame` when the two identifiers are one
    /// and the same, when `user_did` already names a group, or when
    /// `group_did` is already recorded as a member elsewhere; rejected
    /// with `GroupHasUserOrGroupAlready` when the edge already exists.
    pub fn add_user_to_group(&mut self, user_did: DIDType, group_did: DIDType) -> (r: Result<
        (),
        Error,
    >)
        requires
            old(self).wf(),
        ensures
            final(self).wf(),
            final(self).same_roles(*old(self)),
            final(self).same_permissions(*old(self)),
            ({
                let u = user_did@;
                let g = group_did@;
                if u == g || old(self).is_group_key(u) || old(self).is_member_key(g) {
                    r == Err::<(), Error>(Error::UserGroupAreSame) && *final(self) == *old(self)
                } else if old(self).member_edge(g, u) {
                    r == Err::<(), Error>(Error::GroupHasUserOrGroupAlready) && *final(self)
                        == *old(self)
                } else {
                    r == Ok::<(), Error>(()) && final(self).membership_granted(
                        *old(self),
                        g,
                        u,
                    )
                }
            }),
    {
        let mut conflict = id_eq(&group_did, &user_did);
        if !conflict {
            match alist_find(&self.map_group_has, &user_did) {
                Some(_) => {
                    proof {
                        assert(alist_has_key(self.map_group_has@, user_did@));
                    }
                    conflict = true;
                },
                None => {},
            }
        }
        if !conflict {
            match alist_find(&self.map_user_group_entity_belong, &group_did) {
                Some(_) => {
                    proof {
                        assert(alist_has_key(self.map_user_group_entity_belong@, group_did@));
                    }
                    conflict = true;
                },
                None => {},
            }
        }
        if conflict {
            proof {
                lemma_frame_rl(*self, *old(self));
                lemma_frame_pm(*self, *old(self));
            }
            return Err(Error::UserGroupAreSame);
        }
        match self.insert_group_has(&group_did, &user_did) {
            Err(e) => {
                proof {
                    lemma_frame_rl(*self, *old(self));
                    lemma_frame_pm(*self, *old(self));
                }
                Err(e)
            },
            Ok(_) => {
                let ghost mid = *self;
                proof {
                    lemma_frame_bl(mid, *old(self));
                }
                match self.insert_user_group_belongs(&user_did, &group_did) {
                    Err(e) => {
                        proof {
                            assert(mid.belong_edge(user_did@, group_did@));
                            assert(old(self).belong_edge(user_did@, group_did@));
                            assert(old(self).member_edge(group_did@, user_did@));
                            assert(false);
                        }
                        Err(e)
                    },
                    Ok(_) => {
                        proof {
                            let fin = *self;
                            let prior = *old(self);
                            let g = group_did@;
                            let u = user_did@;
                            lemma_frame_gh(fin, mid);
                            lemma_frame_rl(fin, prior);
                            lemma_frame_pm(fin, prior);
                            assert(!mid.belong_edge(u, g));
                            // the seq-level description of the change
                            assert(fin.members_of(g) == prior.members_of(g).push(u));
                            assert(fin.groups_of(u) == prior.groups_of(u).push(g));
                            assert forall|k: Seq<u8>| k != g implies (#[trigger] fin.members_of(
                                k,
                            )) == prior.members_of(k) by {
                                assert(fin.members_of(k) == mid.members_of(k));
                            }
                            assert forall|k: Seq<u8>| k != u implies (#[trigger] fin.groups_of(k))
                                == prior.groups_of(k) by {
                                assert(fin.groups_of(k) == mid.groups_of(k));
                            }
                            assert forall|k: Seq<u8>|
                                (#[trigger] fin.is_group_key(k)) <==> prior.is_group_key(k) || k
                                    == g by {
                                assert(fin.is_group_key(k) <==> mid.is_group_key(k));
                            }
                            assert forall|k: Seq<u8>|
                                (#[trigger] fin.is_member_key(k)) <==> prior.is_member_key(k) || k
                                    == u by {
                                assert(mid.is_member_key(k) <==> prior.is_member_key(k));
                            }
                            // the edge-level description
                            lemma_push_contains(prior.members_of(g), u);
                            lemma_push_contains(prior.groups_of(u), g);
                            assert forall|g2: Seq<u8>, u2: Seq<u8>|
                                (#[trigger] fin.member_edge(g2, u2)) <==> prior.member_edge(g2, u2)
                                    || (g2 == g && u2 == u) by {
                                if g2 == g {
                                    assert(fin.members_of(g2) == prior.members_of(g).push(u));
                                } else {
                                    assert(fin.members_of(g2) == prior.members_of(g2));
                                }
                            }
                            assert(fin.membership_granted(prior, g, u));
                            // the invariant is maintained
                            assert forall|g2: Seq<u8>, u2: Seq<u8>|
                                (#[trigger] fin.member_edge(g2, u2)) <==> (
                                #[trigger] fin.belong_edge(u2, g2)) by {
                                assert(prior.member_edge(g2, u2) <==> prior.belong_edge(u2, g2));
                                if u2 == u {
                                    assert(fin.groups_of(u2) == prior.groups_of(u).push(g));
                                    assert(fin.belong_edge(u2, g2) <==> prior.belong_edge(u, g2)
                                        || g2 == g);
                                } else {
                                    assert(fin.groups_of(u2) == prior.groups_of(u2));
                                }
                            }
                            assert(fin.mirrored());
                            assert forall|x: Seq<u8>|
                                !((#[trigger] fin.is_group_key(x)) && (
                                #[trigger] fin.is_member_key(x))) by {
                                assert(!(prior.is_group_key(x) && prior.is_member_key(x)));
                                assert(!prior.is_group_key(u));
                                assert(!prior.is_member_key(g));
                            }
                            assert(fin.namespaces_disjoint());
                            assert(fin.wf());
                        }
                        Ok(())
                    },
                }
            },
        }
    }

    /// Removes `user_did` from the forward entry of `group_did`. The
    /// entry's key stays known even when its member list becomes empty.
    fn remove_group_has(&mut self, group_did: &DIDType, user_did: &DIDType) -> (r: Result<
        (),
        Error,
    >)
        requires
            old(self).gh_ok(),
        ensures
            final(self).gh_ok(),
            final(self).map_user_group_entity_belong == old(self).map_user_group_entity_belong,
            final(self).map_user_group_to_role == old(self).map_user_group_to_role,
            final(self).map_role_to_permission == old(self).map_role_to_permission,
            !old(self).is_group_key(group_did@) ==> r == Err::<(), Error>(Error::GroupDoesNotExist)
                && *final(self) == *old(self),
            old(self).is_group_key(group_did@) && !old(self).member_edge(group_did@, user_did@)
                ==> r == Err::<(), Error>(Error::UserOrGroupDoesNotExistInGroup) && *final(self)
                == *old(self),
            old(self).is_group_key(group_did@) && old(self).member_edge(group_did@, user_did@)
                ==> {
                &&& r == Ok::<(), Error>(())
                &&& final(self).members_of(group_did@) == old(self).members_of(
                    group_did@,
                ).remove(old(self).members_of(group_did@).index_of(user_did@))
                &&& forall|k: Seq<u8>|
                    k != group_did@ ==> (#[trigger] final(self).members_of(k)) == old(
                        self,
                    ).members_of(k)
                &&& forall|k: Seq<u8>|
                    (#[trigger] final(self).is_group_key(k)) <==> old(self).is_group_key(k)
            },
    {
        let ghost f = |e: UserGroupEntity| e.id@;
        match alist_find(&self.map_group_has, group_did) {
            None => Err(Error::GroupDoesNotExist),
            Some(i) => {
                proof {
                    lemma_alist_at(self.map_group_has@, i as int);
                    assert(old(self).members_of(group_did@) == self.map_group_has@[i as int].1@
                        .map_values(f));
                }
                match entity_position(&self.map_group_has[i].1, user_did) {
                    None => {
                        proof {
                            let vals = self.map_group_has@[i as int].1@;
                            assert(!old(self).member_edge(group_did@, user_did@)) by {
                                if vals.map_values(f).contains(user_did@) {
                                    let w = choose|w: int|
                                        0 <= w < vals.map_values(f).len() && vals.map_values(f)[w]
                                            == user_did@;
                                    assert(vals[w].id@ == user_did@);
                                }
                            }
                        }
                        Err(Error::UserOrGroupDoesNotExistInGroup)
                    },
                    Some(j) => {
                        proof {
                            let vals = self.map_group_has@[i as int].1@;
                            assert(vals.map_values(f)[j as int] == user_did@);
                            assert(old(self).member_edge(group_did@, user_did@));
                        }
                        let ghost before = self.map_group_has@;
                        let ghost ii = i as int;
                        let ghost jj = j as int;
                        alist_remove_at(&mut self.map_group_has, i, j);
                        proof {
                            let m = self.map_group_has@;
                            assert forall|p: int| 0 <= p < m.len() implies (#[trigger] m[p]).0
                                == before[p].0 by {
                                if p != ii {
                                    assert(m[p] == before[p]);
                                }
                            }
                            assert(alist_keys_unique(m)) by {
                                assert forall|p: int, q: int| 0 <= p < q < m.len() implies m[p].0@
                                    != m[q].0@ by {
                                    assert(m[p].0 == before[p].0 && m[q].0 == before[q].0);
                                }
                            }
                            lemma_alist_at(before, ii);
                            lemma_alist_at(m, ii);
                            lemma_map_values_remove(before[ii].1@, f, jj);
                            let s = old(self).members_of(group_did@);
                            assert(self.members_of(group_did@) == s.remove(jj));
                            assert(s[jj] == user_did@);
                            assert(s.no_duplicates());
                            let idx = s.index_of(user_did@);
                            assert(0 <= idx < s.len() && s[idx] == user_did@);
                            assert(idx == jj) by {
                                if idx != jj {
                                    assert(s[idx] != s[jj]);
                                }
                            }
                            assert forall|k: Seq<u8>| k != group_did@ implies (
                            #[trigger] self.members_of(k)) == old(self).members_of(k) by {
                                if alist_has_key(before, k) {
                                    let w = alist_index(before, k);
                                    assert(0 <= w < before.len() && before[w].0@ == k);
                                    assert(w != ii);
                                    assert(m[w] == before[w]);
                                    lemma_alist_at(m, w);
                                    lemma_alist_at(before, w);
                                } else {
                                    assert(!alist_has_key(m, k)) by {
                                        if alist_has_key(m, k) {
                                            let w = choose|w: int|
                                                0 <= w < m.len() && (#[trigger] m[w]).0@ == k;
                                            assert(before[w].0@ == k);
                                            assert(alist_has_key(before, k));
                                        }
                                    }
                                }
                            }
                            assert forall|k: Seq<u8>|
                                (#[trigger] self.is_group_key(k)) <==> old(self).is_group_key(
                                    k,
                                ) by {
                                if alist_has_key(before, k) {
                                    let w = alist_index(before, k);
                                    assert(0 <= w < m.len() && m[w].0@ == k);
                                    assert(alist_has_key(m, k));
                                }
                                if alist_has_key(m, k) {
                                    let w = choose|w: int| 0 <= w < m.len() && (#[trigger] m[w]).0@
                                        == k;
                                    assert(before[w].0@ == k);
                                    assert(alist_has_key(before, k));
                                }
                            }
                            assert forall|k: Seq<u8>|
                                (#[trigger] self.members_of(k)).no_duplicates() by {
                                if k == group_did@ {
                                    lemma_remove_no_duplicates(s, jj);
                                } else {
                                    assert(self.members_of(k) == old(self).members_of(k));
                                    assert(old(self).members_of(k).no_duplicates());
                                }
                            }
                        }
                        Ok(())
                    },
                }
            },
        }
    }

    /// Removes `group_did` from the reverse entry of `user_did`.
    fn remove_user_group_belongs(&mut self, user_did: &DIDType, group_did: &DIDType) -> (r: Result<
        (),
        Error,
    >)
        requires
            old(self).bl_ok(),
        ensures
            final(self).bl_ok(),
            final(self).map_group_has == old(self).map_group_has,
            final(self).map_user_group_to_role == old(self).map_user_group_to_role,
            final(self).map_role_to_permission == old(self).map_role_to_permission,
            !old(self).is_member_key(user_did@) ==> r == Err::<(), Error>(
                Error::UserOrGroupDoesNotExist,
            ) && *final(self) == *old(self),
            old(self).is_member_key(user_did@) && !old(self).belong_edge(user_did@, group_did@)
                ==> r == Err::<(), Error>(Error::GroupDoesNotExistInUserGroup) && *final(self)
                == *old(self),
            old(self).is_member_key(user_did@) && old(self).belong_edge(user_did@, group_did@)
                ==> {
                &&& r == Ok::<(), Error>(())
                &&& final(self).groups_of(user_did@) == old(self).groups_of(user_did@).remove(
                    old(self).groups_of(user_did@).index_of(group_did@),
                )
                &&& forall|k: Seq<u8>|
                    k != user_did@ ==> (#[trigger] final(self).groups_of(k)) == old(self).groups_of(
                        k,
                    )
                &&& forall|k: Seq<u8>|
                    (#[trigger] final(self).is_member_key(k)) <==> old(self).is_member_key(k)
            },
    {
        let ghost f = |d: DIDType| d@;
        match alist_find(&self.map_user_group_entity_belong, user_did) {
            None => Err(Error::UserOrGroupDoesNotExist),
            Some(i) => {
                proof {
                    lemma_alist_at(self.map_user_group_entity_belong@, i as int);
                    assert(old(self).groups_of(user_did@) == self.map_user_group_entity_belong@[i
                        as int].1@.map_values(f));
                }
                match did_position(&self.map_user_group_entity_belong[i].1, group_did) {
                    None => {
                        proof {
                            let vals = self.map_user_group_entity_belong@[i as int].1@;
                            assert(!old(self).belong_edge(user_did@, group_did@)) by {
                                if vals.map_values(f).contains(group_did@) {
                                    let w = choose|w: int|
                                        0 <= w < vals.map_values(f).len() && vals.map_values(f)[w]
                                            == group_did@;
                                    assert(vals[w]@ == group_did@);
                                }
                            }
                        }
                        Err(Error::GroupDoesNotExistInUserGroup)
                    },
                    Some(j) => {
                        proof {
                            let vals = self.map_user_group_entity_belong@[i as int].1@;
                            assert(vals.map_values(f)[j as int] == group_did@);
                            assert(old(self).belong_edge(user_did@, group_did@));
                        }
                        let ghost before = self.map_user_group_entity_belong@;
                        let ghost ii = i as int;
                        let ghost jj = j as int;
                        alist_remove_at(&mut self.map_user_group_entity_belong, i, j);
                        proof {
                            let m = self.map_user_group_entity_belong@;
                            assert forall|p: int| 0 <= p < m.len() implies (#[trigger] m[p]).0
                                == before[p].0 by {
                                if p != ii {
                                    assert(m[p] == before[p]);
                                }
                            }
                            assert(alist_keys_unique(m)) by {
                                assert forall|p: int, q: int| 0 <= p < q < m.len() implies m[p].0@
                                    != m[q].0@ by {
                                    assert(m[p].0 == before[p].0 && m[q].0 == before[q].0);
                                }
                            }
                            lemma_alist_at(before, ii);
                            lemma_alist_at(m, ii);
                            lemma_map_values_remove(before[ii].1@, f, jj);
                            let s = old(self).groups_of(user_did@);
                            assert(self.groups_of(user_did@) == s.remove(jj));
                            assert(s[jj] == group_did@);
                            assert(s.no_duplicates());
                            let idx = s.index_of(group_did@);
                            assert(0 <= idx < s.len() && s[idx] == group_did@);
                            assert(idx == jj) by {
                                if idx != jj {
                                    assert(s[idx] != s[jj]);
                                }
                            }
                            assert forall|k: Seq<u8>| k != user_did@ implies (
                            #[trigger] self.groups_of(k)) == old(self).groups_of(k) by {
                                if alist_has_key(before, k) {
                                    let w = alist_index(before, k);
                                    assert(0 <= w < before.len() && before[w].0@ == k);
                                    assert(w != ii);
                                    assert(m[w] == before[w]);
                                    lemma_alist_at(m, w);
                                    lemma_alist_at(before, w);
                                } else {
                                    assert(!alist_has_key(m, k)) by {
                                        if alist_has_key(m, k) {
                                            let w = choose|w: int|
                                                0 <= w < m.len() && (#[trigger] m[w]).0@ == k;
                                            assert(before[w].0@ == k);
                                            assert(alist_has_key(before, k));
                                        }
                                    }
                                }
                            }
                            assert forall|k: Seq<u8>|
                                (#[trigger] self.is_member_key(k)) <==> old(self).is_member_key(
                                    k,
                                ) by {
                                if alist_has_key(before, k) {
                                    let w = alist_index(before, k);
                                    assert(0 <= w < m.len() && m[w].0@ == k);
                                    assert(alist_has_key(m, k));
                                }
                                if alist_has_key(m, k) {
                                    let w = choose|w: int| 0 <= w < m.len() && (#[trigger] m[w]).0@
                                        == k;
                                    assert(before[w].0@ == k);
                                    assert(alist_has_key(before, k));
                                }
                            }
                            assert forall|k: Seq<u8>|
                                (#[trigger] self.groups_of(k)).no_duplicates() by {
                                if k == user_did@ {
                                    lemma_remove_no_duplicates(s, jj);
                                } else {
                                    assert(self.groups_of(k) == old(self).groups_of(k));
                                    assert(old(self).groups_of(k).no_duplicates());
                                }
                            }
                        }
                        Ok(())
                    },
                }
            },
        }
    }

    /// Removes `user_did` from `group_did`, maintaining both sides of the
    /// membership relation. Both keys stay known, even emptied.
    ///
    /// Rejected with `GroupDoesNotExist` when `group_did` keys no entry,
    /// and with `UserOrGroupDoesNotExistInGroup` when `user_did` is not a
    /// recorded member of it.
    pub fn remove_user_from_group(&mut self, user_did: DIDType, group_did: DIDType) -> (r: Result<
        (),
        Error,
    >)
        requires
            old(self).wf(),
        ensures
            final(self).wf(),
            final(self).same_roles(*old(self)),
            final(self).same_permissions(*old(self)),
            ({
                let u = user_did@;
                let g = group_did@;
                if !old(self).is_group_key(g) {
                    r == Err::<(), Error>(Error::GroupDoesNotExist) && *final(self) == *old(self)
                } else if !old(self).member_edge(g, u) {
                    r == Err::<(), Error>(Error::UserOrGroupDoesNotExistInGroup) && *final(self)
                        == *old(self)
                } else {
                    r == Ok::<(), Error>(()) && final(self).membership_revoked(*old(self), g, u)
                }
            }),
    {
        match self.remove_group_has(&group_did, &user_did) {
            Err(e) => {
                proof {
                    lemma_frame_rl(*self, *old(self));
                    lemma_frame_pm(*self, *old(self));
                }
                Err(e)
            },
            Ok(_) => {
                let ghost mid = *self;
                let ghost g = group_did@;
                let ghost u = user_did@;
                proof {
                    lemma_frame_bl(mid, *old(self));
                    assert(old(self).member_edge(g, u));
                    assert(old(self).belong_edge(u, g));
                    assert(mid.belong_edge(u, g));
                    assert(mid.is_member_key(u)) by {
                        if !alist_has_key(mid.map_user_group_entity_belong@, u) {
                            assert(Seq::<DIDType>::empty().map_values(|d: DIDType| d@).len() == 0);
                        }
                    }
                }
                match self.remove_user_group_belongs(&user_did, &group_did) {
                    Err(e) => {
                        proof {
                            assert(false);
                        }
                        Err(e)
                    },
                    Ok(_) => {
                        proof {
                            let fin = *self;
                            let prior = *old(self);
                            lemma_frame_gh(fin, mid);
                            lemma_frame_rl(fin, prior);
                            lemma_frame_pm(fin, prior);
                            let s = prior.members_of(g);
                            let t = prior.groups_of(u);
                            let si = s.index_of(u);
                            let ti = t.index_of(g);
                            assert(0 <= si < s.len() && s[si] == u);
                            assert(0 <= ti < t.len() && t[ti] == g);
                            // the seq-level description of the change
                            assert(fin.members_of(g) == s.remove(si));
                            assert(mid.groups_of(u) == t);
                            assert(fin.groups_of(u) == t.remove(ti));
                            assert forall|k: Seq<u8>| k != g implies (#[trigger] fin.members_of(
                                k,
                            )) == prior.members_of(k) by {
                                assert(fin.members_of(k) == mid.members_of(k));
                            }
                            assert forall|k: Seq<u8>| k != u implies (#[trigger] fin.groups_of(k))
                                == prior.groups_of(k) by {
                                assert(mid.groups_of(k) == prior.groups_of(k));
                            }
                            assert forall|k: Seq<u8>|
                                (#[trigger] fin.is_group_key(k)) <==> prior.is_group_key(k) by {
                                assert(fin.is_group_key(k) <==> mid.is_group_key(k));
                            }
                            assert forall|k: Seq<u8>|
                                (#[trigger] fin.is_member_key(k)) <==> prior.is_member_key(k) by {
                                assert(mid.is_member_key(k) <==> prior.is_member_key(k));
                            }
                            // the edge-level description
                            assert(s.no_duplicates());
                            assert(t.no_duplicates());
                            lemma_remove_contains(s, si);
                            lemma_remove_contains(t, ti);
                            assert forall|g2: Seq<u8>, u2: Seq<u8>|
                                (#[trigger] fin.member_edge(g2, u2)) <==> prior.member_edge(g2, u2)
                                    && !(g2 == g && u2 == u) by {
                                if g2 == g {
                                    assert(fin.members_of(g2) == s.remove(si));
                                } else {
                                    assert(fin.members_of(g2) == prior.members_of(g2));
                                }
                            }
                            assert(fin.membership_revoked(prior, g, u));
                            // the invariant is maintained
                            assert forall|g2: Seq<u8>, u2: Seq<u8>|
                                (#[trigger] fin.member_edge(g2, u2)) <==> (
                                #[trigger] fin.belong_edge(u2, g2)) by {
                                assert(prior.member_edge(g2, u2) <==> prior.belong_edge(u2, g2));
                                if u2 == u {
                                    assert(fin.groups_of(u2) == t.remove(ti));
                                    assert(fin.belong_edge(u2, g2) <==> prior.belong_edge(u, g2)
                                        && g2 != g);
                                } else {
                                    assert(fin.groups_of(u2) == prior.groups_of(u2));
                                }
                            }
                            assert(fin.mirrored());
                            assert forall|x: Seq<u8>|
                                !((#[trigger] fin.is_group_key(x)) && (
                                #[trigger] fin.is_member_key(x))) by {
                                assert(!(prior.is_group_key(x) && prior.is_member_key(x)));
                            }
                            assert(fin.namespaces_disjoint());
                            assert(fin.wf());
                        }
                        Ok(())
                    },
                }
            },
        }
    }

    /// Grants role `role_did` directly to the user or group
    /// `user_or_group_did`.
    ///
    /// Rejected with `UserOrGroupHasRoleAlready` when the edge already
    /// exists.
    pub fn add_user_or_group_to_role(
        &mut self,
        user_or_group_did: DIDType,
        role_did: DIDType,
    ) -> (r: Result<(), Error>)
        requires
            old(self).wf(),
        ensures
            final(self).wf(),
            final(self).same_membership(*old(self)),
            final(self).same_permissions(*old(self)),
            old(self).role_edge(user_or_group_did@, role_did@) ==> r == Err::<(), Error>(
                Error::UserOrGroupHasRoleAlready,
            ) && *final(self) == *old(self),
            !old(self).role_edge(user_or_group_did@, role_did@) ==> r == Ok::<(), Error>(())
                && final(self).role_granted(*old(self), user_or_group_did@, role_did@),
    {
        let ghost f = |rr: Role| rr.id@;
        let ghost x = user_or_group_did@;
        let role = Role { id: role_did };
        match alist_find(&self.map_user_group_to_role, &user_or_group_did) {
            None => {
                proof {
                    assert(old(self).roles_of(x) =~= Seq::<Seq<u8>>::empty()) by {
                        assert(Seq::<Role>::empty().map_values(f) =~= Seq::<Seq<u8>>::empty());
                    }
                }
                let mut vals: Vec<Role> = Vec::new();
                vals.push(role);
                let ghost before = self.map_user_group_to_role@;
                let ghost gvals = vals@;
                self.map_user_group_to_role.push((user_or_group_did, vals));
                proof {
                    let m = self.map_user_group_to_role@;
                    let n = before.len() as int;
                    assert(m[n].0@ == x && m[n].1@ == gvals);
                    assert(alist_keys_unique(m)) by {
                        assert forall|p: int, q: int| 0 <= p < q < m.len() implies m[p].0@
                            != m[q].0@ by {
                            assert(m[p] == before[p]);
                            if q < n {
                                assert(m[q] == before[q]);
                            } else {
                                assert(before[p].0@ != x);
                            }
                        }
                    }
                    lemma_alist_at(m, n);
                    assert(self.roles_of(x) == old(self).roles_of(x).push(role_did@)) by {
                        assert(alist_vals(m, x) == gvals);
                        assert(gvals =~= Seq::<Role>::empty().push(role));
                        lemma_map_values_push(Seq::<Role>::empty(), f, role);
                        assert(gvals.map_values(f) == Seq::<Role>::empty().map_values(f).push(
                            role_did@,
                        ));
                        assert(Seq::<Role>::empty().map_values(f) =~= Seq::<Seq<u8>>::empty());
                    }
                    assert forall|k: Seq<u8>| k != x implies (#[trigger] self.roles_of(k)) == old(
                        self,
                    ).roles_of(k) by {
                        if alist_has_key(before, k) {
                            let w = alist_index(before, k);
                            assert(0 <= w < n && before[w].0@ == k);
                            assert(m[w] == before[w]);
                            lemma_alist_at(m, w);
                            lemma_alist_at(before, w);
                        } else {
                            assert(!alist_has_key(m, k)) by {
                                if alist_has_key(m, k) {
                                    let w = choose|w: int| 0 <= w < m.len() && (#[trigger] m[w]).0@
                                        == k;
                                    if w < n {
                                        assert(before[w].0@ == k);
                                        assert(alist_has_key(before, k));
                                    }
                                }
                            }
                        }
                    }
                    assert forall|k: Seq<u8>|
                        (#[trigger] self.is_role_key(k)) <==> old(self).is_role_key(k) || k
                            == x by {
                        if alist_has_key(before, k) {
                            let w = alist_index(before, k);
                            assert(0 <= w < n && before[w].0@ == k);
                            assert(m[w] == before[w]);
                            assert(alist_has_key(m, k));
                        }
                        if k == x {
                            assert(m[n].0@ == k);
                            assert(alist_has_key(m, k));
                        }
                        if alist_has_key(m, k) && k != x {
                            let w = choose|w: int| 0 <= w < m.len() && (#[trigger] m[w]).0@ == k;
                            assert(m[w].0@ == k);
                            assert(w < n);
                            assert(before[w].0@ == k);
                            assert(alist_has_key(before, k));
                        }
                    }
                    assert forall|k: Seq<u8>| (#[trigger] self.roles_of(k)).no_duplicates() by {
                        if k == x {
                            assert(self.roles_of(k) == old(self).roles_of(k).push(role_did@));
                            assert(old(self).roles_of(k).len() == 0);
                        } else {
                            assert(self.roles_of(k) == old(self).roles_of(k));
                            assert(old(self).roles_of(k).no_duplicates());
                        }
                    }
                    lemma_push_contains(old(self).roles_of(x), role_did@);
                    assert forall|y: Seq<u8>, r2: Seq<u8>|
                        (#[trigger] self.role_edge(y, r2)) <==> old(self).role_edge(y, r2) || (y
                            == x && r2 == role_did@) by {
                        if y == x {
                            assert(self.roles_of(y) == old(self).roles_of(x).push(role_did@));
                        } else {
                            assert(self.roles_of(y) == old(self).roles_of(y));
                        }
                    }
                    lemma_frame_membership_inv(*self, *old(self));
                    lemma_frame_pm(*self, *old(self));
                    assert(self.wf());
                }
                Ok(())
            },
            Some(i) => {
                proof {
                    lemma_alist_at(self.map_user_group_to_role@, i as int);
                    assert(old(self).roles_of(x) == self.map_user_group_to_role@[i as int].1@
                        .map_values(f));
                }
                match role_position(&self.map_user_group_to_role[i].1, &role_did) {
                    Some(j) => {
                        proof {
                            let vals = self.map_user_group_to_role@[i as int].1@;
                            assert(vals.map_values(f)[j as int] == role_did@);
                            assert(old(self).role_edge(x, role_did@));
                        }
                        Err(Error::UserOrGroupHasRoleAlready)
                    },
                    None => {
                        proof {
                            let vals = self.map_user_group_to_role@[i as int].1@;
                            assert(!old(self).role_edge(x, role_did@)) by {
                                if vals.map_values(f).contains(role_did@) {
                                    let w = choose|w: int|
                                        0 <= w < vals.map_values(f).len() && vals.map_values(f)[w]
                                            == role_did@;
                                    assert(vals[w].id@ == role_did@);
                                }
                            }
                        }
                        let ghost before = self.map_user_group_to_role@;
                        let ghost ii = i as int;
                        alist_push_at(&mut self.map_user_group_to_role, i, role);
                        proof {
                            let m = self.map_user_group_to_role@;
                            assert forall|p: int| 0 <= p < m.len() implies (#[trigger] m[p]).0
                                == before[p].0 by {
                                if p != ii {
                                    assert(m[p] == before[p]);
                                }
                            }
                            assert(alist_keys_unique(m)) by {
                                assert forall|p: int, q: int| 0 <= p < q < m.len() implies m[p].0@
                                    != m[q].0@ by {
                                    assert(m[p].0 == before[p].0 && m[q].0 == before[q].0);
                                }
                            }
                            lemma_alist_at(before, ii);
                            lemma_alist_at(m, ii);
                            lemma_map_values_push(before[ii].1@, f, role);
                            assert(self.roles_of(x) == old(self).roles_of(x).push(role_did@)) by {
                                assert(alist_vals(m, x) == m[ii].1@);
                                assert(m[ii].1@ == before[ii].1@.push(role));
                                assert(m[ii].1@.map_values(f) == before[ii].1@.map_values(f).push(
                                    role_did@,
                                ));
                            }
                            assert forall|k: Seq<u8>| k != x implies (#[trigger] self.roles_of(k))
                                == old(self).roles_of(k) by {
                                if alist_has_key(before, k) {
                                    let w = alist_index(before, k);
                                    assert(0 <= w < before.len() && before[w].0@ == k);
                                    assert(w != ii);
                                    assert(m[w] == before[w]);
                                    lemma_alist_at(m, w);
                                    lemma_alist_at(before, w);
                                } else {
                                    assert(!alist_has_key(m, k)) by {
                                        if alist_has_key(m, k) {
                                            let w = choose|w: int|
                                                0 <= w < m.len() && (#[trigger] m[w]).0@ == k;
                                            assert(before[w].0@ == k);
                                            assert(alist_has_key(before, k));
                                        }
                                    }
                                }
                            }
                            assert forall|k: Seq<u8>|
                                (#[trigger] self.is_role_key(k)) <==> old(self).is_role_key(k) || k
                                    == x by {
                                if alist_has_key(before, k) {
                                    let w = alist_index(before, k);
                                    assert(0 <= w < m.len() && m[w].0@ == k);
                                    assert(alist_has_key(m, k));
                                }
                                if alist_has_key(m, k) {
                                    let w = choose|w: int| 0 <= w < m.len() && (#[trigger] m[w]).0@
                                        == k;
                                    assert(before[w].0@ == k);
                                    assert(alist_has_key(before, k));
                                }
                                if k == x {
                                    assert(alist_has_key(before, k));
                                }
                            }
                            assert forall|k: Seq<u8>|
                                (#[trigger] self.roles_of(k)).no_duplicates() by {
                                if k == x {
                                    let s = old(self).roles_of(k);
                                    assert(s.no_duplicates());
                                    assert(self.roles_of(k) == s.push(role_did@));
                                    assert forall|p: int, q: int|
                                        0 <= p < s.push(role_did@).len() && 0 <= q < s.push(
                                            role_did@,
                                        ).len() && p != q implies s.push(role_did@)[p] != s.push(
                                        role_did@,
                                    )[q] by {
                                        if p < s.len() && q < s.len() {
                                            assert(s[p] != s[q]);
                                        } else if p < s.len() {
                                            assert(s.push(role_did@)[q] == role_did@);
                                            assert(s[p] != role_did@) by {
                                                if s[p] == role_did@ {
                                                    assert(s.contains(role_did@));
                                                }
                                            }
                                        } else {
                                            assert(s.push(role_did@)[p] == role_did@);
                                            assert(s[q] != role_did@) by {
                                                if s[q] == role_did@ {
                                                    assert(s.contains(role_did@));
                                                }
                                            }
                                        }
                                    }
                                } else {
                                    assert(self.roles_of(k) == old(self).roles_of(k));
                                    assert(old(self).roles_of(k).no_duplicates());
                                }
                            }
                            lemma_push_contains(old(self).roles_of(x), role_did@);
                            assert forall|y: Seq<u8>, r2: Seq<u8>|
                                (#[trigger] self.role_edge(y, r2)) <==> old(self).role_edge(y, r2)
                                    || (y == x && r2 == role_did@) by {
                                if y == x {
                                    assert(self.roles_of(y) == old(self).roles_of(x).push(
                                        role_did@,
                                    ));
                                } else {
                                    assert(self.roles_of(y) == old(self).roles_of(y));
                                }
                            }
                            lemma_frame_membership_inv(*self, *old(self));
                            lemma_frame_pm(*self, *old(self));
                            assert(self.wf());
                        }
                        Ok(())
                    },
                }
            },
        }
    }

    /// Revokes role `role_did` from the user or group `user_or_group_did`.
    ///
    /// Rejected with `UserOrGroupDoesNotExist` when the identity keys no
    /// role entry at all, and with `RoleDoesNotExistForUserOrGroup` when
    /// this role is absent.
    pub fn remove_user_or_group_from_role(
        &mut self,
        user_or_group_did: DIDType,
        role_did: DIDType,
    ) -> (r: Result<(), Error>)
        requires
            old(self).wf(),
        ensures
            final(self).wf(),
            final(self).same_membership(*old(self)),
            final(self).same_permissions(*old(self)),
            !old(self).is_role_key(user_or_group_did@) ==> r == Err::<(), Error>(
                Error::UserOrGroupDoesNotExist,
            ) && *final(self) == *old(self),
            old(self).is_role_key(user_or_group_did@) && !old(self).role_edge(
                user_or_group_did@,
                role_did@,
            ) ==> r == Err::<(), Error>(Error::RoleDoesNotExistForUserOrGroup) && *final(self)
                == *old(self),
            old(self).is_role_key(user_or_group_did@) && old(self).role_edge(
                user_or_group_did@,
                role_did@,
            ) ==> r == Ok::<(), Error>(()) && final(self).role_revoked(
                *old(self),
                user_or_group_did@,
                role_did@,
            ),
    {
        let ghost f = |rr: Role| rr.id@;
        let ghost x = user_or_group_did@;
        match alist_find(&self.map_user_group_to_role, &user_or_group_did) {
            None => Err(Error::UserOrGroupDoesNotExist),
            Some(i) => {
                proof {
                    lemma_alist_at(self.map_user_group_to_role@, i as int);
                    assert(old(self).roles_of(x) == self.map_user_group_to_role@[i as int].1@
                        .map_values(f));
                }
                match role_position(&self.map_user_group_to_role[i].1, &role_did) {
                    None => {
                        proof {
                            let vals = self.map_user_group_to_role@[i as int].1@;
                            assert(!old(self).role_edge(x, role_did@)) by {
                                if vals.map_values(f).contains(role_did@) {
                                    let w = choose|w: int|
                                        0 <= w < vals.map_values(f).len() && vals.map_values(f)[w]
                                            == role_did@;
                                    assert(vals[w].id@ == role_did@);
                                }
                            }
                        }
                        Err(Error::RoleDoesNotExistForUserOrGroup)
                    },
                    Some(j) => {
                        proof {
                            let vals = self.map_user_group_to_role@[i as int].1@;
                            assert(vals.map_values(f)[j as int] == role_did@);
                            assert(old(self).role_edge(x, role_did@));
                        }
                        let ghost before = self.map_user_group_to_role@;
                        let ghost ii = i as int;
                        let ghost jj = j as int;
                        alist_remove_at(&mut self.map_user_group_to_role, i, j);
                        proof {
                            let m = self.map_user_group_to_role@;
                            assert forall|p: int| 0 <= p < m.len() implies (#[trigger] m[p]).0
                                == before[p].0 by {
                                if p != ii {
                                    assert(m[p] == before[p]);
                                }
                            }
                            assert(alist_keys_unique(m)) by {
                                assert forall|p: int, q: int| 0 <= p < q < m.len() implies m[p].0@
                                    != m[q].0@ by {
                                    assert(m[p].0 == before[p].0 && m[q].0 == before[q].0);
                                }
                            }
                            lemma_alist_at(before, ii);
                            lemma_alist_at(m, ii);
                            lemma_map_values_remove(before[ii].1@, f, jj);
                            let s = old(self).roles_of(x);
                            assert(self.roles_of(x) == s.remove(jj));
                            assert(s[jj] == role_did@);
                            assert(s.no_duplicates());
                            let idx = s.index_of(role_did@);
                            assert(0 <= idx < s.len() && s[idx] == role_did@);
                            assert(idx == jj) by {
                                if idx != jj {
                                    assert(s[idx] != s[jj]);
                                }
                            }
                            assert forall|k: Seq<u8>| k != x implies (#[trigger] self.roles_of(k))
                                == old(self).roles_of(k) by {
                                if alist_has_key(before, k) {
                                    let w = alist_index(before, k);
                                    assert(0 <= w < before.len() && before[w].0@ == k);
                                    assert(w != ii);
                                    assert(m[w] == before[w]);
                                    lemma_alist_at(m, w);
                                    lemma_alist_at(before, w);
                                } else {
                                    assert(!alist_has_key(m, k)) by {
                                        if alist_has_key(m, k) {
                                            let w = choose|w: int|
                                                0 <= w < m.len() && (#[trigger] m[w]).0@ == k;
                                            assert(before[w].0@ == k);
                                            assert(alist_has_key(before, k));
                                        }
                                    }
                                }
                            }
                            assert forall|k: Seq<u8>|
                                (#[trigger] self.is_role_key(k)) <==> old(self).is_role_key(k) by {
                                if alist_has_key(before, k) {
                                    let w = alist_index(before, k);
                                    assert(0 <= w < m.len() && m[w].0@ == k);
                                    assert(alist_has_key(m, k));
                                }
                                if alist_has_key(m, k) {
                                    let w = choose|w: int| 0 <= w < m.len() && (#[trigger] m[w]).0@
                                        == k;
                                    assert(before[w].0@ == k);
                                    assert(alist_has_key(before, k));
                                }
                            }
                            assert forall|k: Seq<u8>|
                                (#[trigger] self.roles_of(k)).no_duplicates() by {
                                if k == x {
                                    lemma_remove_no_duplicates(s, jj);
                                } else {
                                    assert(self.roles_of(k) == old(self).roles_of(k));
                                    assert(old(self).roles_of(k).no_duplicates());
                                }
                            }
                            lemma_remove_contains(s, jj);
                            assert forall|y: Seq<u8>, r2: Seq<u8>|
                                (#[trigger] self.role_edge(y, r2)) <==> old(self).role_edge(y, r2)
                                    && !(y == x && r2 == role_did@) by {
                                if y == x {
                                    assert(self.roles_of(y) == s.remove(jj));
                                } else {
                                    assert(self.roles_of(y) == old(self).roles_of(y));
                                }
                            }
                            lemma_frame_membership_inv(*self, *old(self));
                            lemma_frame_pm(*self, *old(self));
                            assert(self.wf());
                        }
                        Ok(())
                    },
                }
            },
        }
    }

    /// Grants role `permission_did` directly to the user or group
    /// `role_did`.
    ///
    /// Rejected with `UserOrGroupHasRoleAlready` when the edge already
    /// exists.
    pub fn add_role_to_permission(
        &mut self,
        role_did: DIDType,
        permission_did: DIDType,
    ) -> (r: Result<(), Error>)
        requires
            old(self).wf(),
        ensures
            final(self).wf(),
            final(self).same_membership(*old(self)),
            final(self).same_roles(*old(self)),
            old(self).perm_edge(role_did@, permission_did@) ==> r == Err::<(), Error>(
                Error::RoleHasPermissionAlready,
            ) && *final(self) == *old(self),
            !old(self).perm_edge(role_did@, permission_did@) ==> r == Ok::<(), Error>(())
                && final(self).permission_granted(*old(self), role_did@, permission_did@),
    {
        let ghost f = |pp: Permission| pp.id@;
        let ghost x = role_did@;
        let permission = Permission { id: permission_did };
        match alist_find(&self.map_role_to_permission, &role_did) {
            None => {
                proof {
                    assert(old(self).permissions_of(x) =~= Seq::<Seq<u8>>::empty()) by {
                        assert(Seq::<Permission>::empty().map_values(f) =~= Seq::<Seq<u8>>::empty());
                    }
                }
                let mut vals: Vec<Permission> = Vec::new();
                vals.push(permission);
                let ghost before = self.map_role_to_permission@;
                let ghost gvals = vals@;
                self.map_role_to_permission.push((role_did, vals));
                proof {
                    let m = self.map_role_to_permission@;
                    let n = before.len() as int;
                    assert(m[n].0@ == x && m[n].1@ == gvals);
                    assert(alist_keys_unique(m)) by {
                        assert forall|p: int, q: int| 0 <= p < q < m.len() implies m[p].0@
                            != m[q].0@ by {
                            assert(m[p] == before[p]);
                            if q < n {
                                assert(m[q] == before[q]);
                            } else {
                                assert(before[p].0@ != x);
                            }
                        }
                    }
                    lemma_alist_at(m, n);
                    assert(self.permissions_of(x) == old(self).permissions_of(x).push(permission_did@)) by {
                        assert(alist_vals(m, x) == gvals);
                        assert(gvals =~= Seq::<Permission>::empty().push(permission));
                        lemma_map_values_push(Seq::<Permission>::empty(), f, permission);
                        assert(gvals.map_values(f) == Seq::<Permission>::empty().map_values(f).push(
                            permission_did@,
                        ));
                        assert(Seq::<Permission>::empty().map_values(f) =~= Seq::<Seq<u8>>::empty());
                    }
                    assert forall|k: Seq<u8>| k != x implies (#[trigger] self.permissions_of(k)) == old(
                        self,
                    ).permissions_of(k) by {
                        if alist_has_key(before, k) {
                            let w = alist_index(before, k);
                            assert(0 <= w < n && before[w].0@ == k);
                            assert(m[w] == before[w]);
                            lemma_alist_at(m, w);
                            lemma_alist_at(before, w);
                        } else {
                            assert(!alist_has_key(m, k)) by {
                                if alist_has_key(m, k) {
                                    let w = choose|w: int| 0 <= w < m.len() && (#[trigger] m[w]).0@
                                        == k;
                                    if w < n {
                                        assert(before[w].0@ == k);
                                        assert(alist_has_key(before, k));
                                    }
                                }
                            }
                        }
                    }
                    assert forall|k: Seq<u8>|
                        (#[trigger] self.is_perm_key(k)) <==> old(self).is_perm_key(k) || k
                            == x by {
                        if alist_has_key(before, k) {
                            let w = alist_index(before, k);
                            assert(0 <= w < n && before[w].0@ == k);
                            assert(m[w] == before[w]);
                            assert(alist_has_key(m, k));
                        }
                        if k == x {
                            assert(m[n].0@ == k);
                            assert(alist_has_key(m, k));
                        }
                        if alist_has_key(m, k) && k != x {
                            let w = choose|w: int| 0 <= w < m.len() && (#[trigger] m[w]).0@ == k;
                            assert(m[w].0@ == k);
                            assert(w < n);
                            assert(before[w].0@ == k);
                            assert(alist_has_key(before, k));
                        }
                    }
                    assert forall|k: Seq<u8>| (#[trigger] self.permissions_of(k)).no_duplicates() by {
                        if k == x {
                            assert(self.permissions_of(k) == old(self).permissions_of(k).push(permission_did@));
                            assert(old(self).permissions_of(k).len() == 0);
                        } else {
                            assert(self.permissions_of(k) == old(self).permissions_of(k));
                            assert(old(self).permissions_of(k).no_duplicates());
                        }
                    }
                    lemma_push_contains(old(self).permissions_of(x), permission_did@);
                    assert forall|y: Seq<u8>, r2: Seq<u8>|
                        (#[trigger] self.perm_edge(y, r2)) <==> old(self).perm_edge(y, r2) || (y
                            == x && r2 == permission_did@) by {
                        if y == x {
                            assert(self.permissions_of(y) == old(self).permissions_of(x).push(permission_did@));
                        } else {
                            assert(self.permissions_of(y) == old(self).permissions_of(y));
                        }
                    }
                    lemma_frame_membership_inv(*self, *old(self));
                    lemma_frame_rl(*self, *old(self));
                    assert(self.wf());
                }
                Ok(())
            },
            Some(i) => {
                proof {
                    lemma_alist_at(self.map_role_to_permission@, i as int);
                    assert(old(self).permissions_of(x) == self.map_role_to_permission@[i as int].1@
                        .map_values(f));
                }
                match perm_position(&self.map_role_to_permission[i].1, &permission_did) {
                    Some(j) => {
                        proof {
                            let vals = self.map_role_to_permission@[i as int].1@;
                            assert(vals.map_values(f)[j as int] == permission_did@);
                            assert(old(self).perm_edge(x, permission_did@));
                        }
                        Err(Error::RoleHasPermissionAlready)
                    },
                    None => {
                        proof {
                            let vals = self.map_role_to_permission@[i as int].1@;
                            assert(!old(self).perm_edge(x, permission_did@)) by {
                                if vals.map_values(f).contains(permission_did@) {
                                    let w = choose|w: int|
                                        0 <= w < vals.map_values(f).len() && vals.map_values(f)[w]
                                            == permission_did@;
                                    assert(vals[w].id@ == permission_did@);
                                }
                            }
                        }
                        let ghost before = self.map_role_to_permission@;
                        let ghost ii = i as int;
                        alist_push_at(&mut self.map_role_to_permission, i, permission);
                        proof {
                            let m = self.map_role_to_permission@;
                            assert forall|p: int| 0 <= p < m.len() implies (#[trigger] m[p]).0
                                == before[p].0 by {
                                if p != ii {
                                    assert(m[p] == before[p]);
                                }
                            }
                            assert(alist_keys_unique(m)) by {
                                assert forall|p: int, q: int| 0 <= p < q < m.len() implies m[p].0@
                                    != m[q].0@ by {
                                    assert(m[p].0 == before[p].0 && m[q].0 == before[q].0);
                                }
                            }
                            lemma_alist_at(before, ii);
                            lemma_alist_at(m, ii);
                            lemma_map_values_push(before[ii].1@, f, permission);
                            assert(self.permissions_of(x) == old(self).permissions_of(x).push(permission_did@)) by {
                                assert(alist_vals(m, x) == m[ii].1@);
                                assert(m[ii].1@ == before[ii].1@.push(permission));
                                assert(m[ii].1@.map_values(f) == before[ii].1@.map_values(f).push(
                                    permission_did@,
                                ));
                            }
                            assert forall|k: Seq<u8>| k != x implies (#[trigger] self.permissions_of(k))
                                == old(self).permissions_of(k) by {
                                if alist_has_key(before, k) {
                                    let w = alist_index(before, k);
                                    assert(0 <= w < before.len() && before[w].0@ == k);
                                    assert(w != ii);
                                    assert(m[w] == before[w]);
                                    lemma_alist_at(m, w);
                                    lemma_alist_at(before, w);
                                } else {
                                    assert(!alist_has_key(m, k)) by {
                                        if alist_has_key(m, k) {
                                            let w = choose|w: int|
                                                0 <= w < m.len() && (#[trigger] m[w]).0@ == k;
                                            assert(before[w].0@ == k);
                                            assert(alist_has_key(before, k));
                                        }
                                    }
                                }
                            }
                            assert forall|k: Seq<u8>|
                                (#[trigger] self.is_perm_key(k)) <==> old(self).is_perm_key(k) || k
                                    == x by {
                                if alist_has_key(before, k) {
                                    let w = alist_index(before, k);
                                    assert(0 <= w < m.len() && m[w].0@ == k);
                                    assert(alist_has_key(m, k));
                                }
                                if alist_has_key(m, k) {
                                    let w = choose|w: int| 0 <= w < m.len() && (#[trigger] m[w]).0@
                                        == k;
                                    assert(before[w].0@ == k);
                                    assert(alist_has_key(before, k));
                                }
                                if k == x {
                                    assert(alist_has_key(before, k));
                                }
                            }
                            assert forall|k: Seq<u8>|
                                (#[trigger] self.permissions_of(k)).no_duplicates() by {
                                if k == x {
                                    let s = old(self).permissions_of(k);
                                    assert(s.no_duplicates());
                                    assert(self.permissions_of(k) == s.push(permission_did@));
                                    assert forall|p: int, q: int|
                                        0 <= p < s.push(permission_did@).len() && 0 <= q < s.push(
                                            permission_did@,
                                        ).len() && p != q implies s.push(permission_did@)[p] != s.push(
                                        permission_did@,
                                    )[q] by {
                                        if p < s.len() && q < s.len() {
                                            assert(s[p] != s[q]);
                                        } else if p < s.len() {
                                            assert(s.push(permission_did@)[q] == permission_did@);
                                            assert(s[p] != permission_did@) by {
                                                if s[p] == permission_did@ {
                                                    assert(s.contains(permission_did@));
                                                }
                                            }
                                        } else {
                                            assert(s.push(permission_did@)[p] == permission_did@);
                                            assert(s[q] != permission_did@) by {
                                                if s[q] == permission_did@ {
                                                    assert(s.contains(permission_did@));
                                                }
                                            }
                                        }
                                    }
                                } else {
                                    assert(self.permissions_of(k) == old(self).permissions_of(k));
                                    assert(old(self).permissions_of(k).no_duplicates());
                                }
                            }
                            lemma_push_contains(old(self).permissions_of(x), permission_did@);
                            assert forall|y: Seq<u8>, r2: Seq<u8>|
                                (#[trigger] self.perm_edge(y, r2)) <==> old(self).perm_edge(y, r2)
                                    || (y == x && r2 == permission_did@) by {
                                if y == x {
                                    assert(self.permissions_of(y) == old(self).permissions_of(x).push(
                                        permission_did@,
                                    ));
                                } else {
                                    assert(self.permissions_of(y) == old(self).permissions_of(y));
                                }
                            }
                            lemma_frame_membership_inv(*self, *old(self));
                            lemma_frame_rl(*self, *old(self));
                            assert(self.wf());
                        }
                        Ok(())
                    },
                }
            },
        }
    }

    /// Revokes role `permission_did` from the user or group `role_did`.
    ///
    /// Rejected with `UserOrGroupDoesNotExist` when the identity keys no
    /// role entry at all, and with `RoleDoesNotExistForUserOrGroup` when
    /// this role is absent.
    pub fn remove_role_from_permission(
        &mut self,
        role_did: DIDType,
        permission_did: DIDType,
    ) -> (r: Result<(), Error>)
        requires
            old(self).wf(),
        ensures
            final(self).wf(),
            final(self).same_membership(*old(self)),
            final(self).same_roles(*old(self)),
            !old(self).is_perm_key(role_did@) ==> r == Err::<(), Error>(
                Error::RoleDoesNotExist,
            ) && *final(self) == *old(self),
            old(self).is_perm_key(role_did@) && !old(self).perm_edge(
                role_did@,
                permission_did@,
            ) ==> r == Err::<(), Error>(Error::PermissionNotExistInRole) && *final(self)
                == *old(self),
            old(self).is_perm_key(role_did@) && old(self).perm_edge(
                role_did@,
                permission_did@,
            ) ==> r == Ok::<(), Error>(()) && final(self).permission_revoked(
                *old(self),
                role_did@,
                permission_did@,
            ),
    {
        let ghost f = |pp: Permission| pp.id@;
        let ghost x = role_did@;
        match alist_find(&self.map_role_to_permission, &role_did) {
            None => Err(Error::RoleDoesNotExist),
            Some(i) => {
                proof {
                    lemma_alist_at(self.map_role_to_permission@, i as int);
                    assert(old(self).permissions_of(x) == self.map_role_to_permission@[i as int].1@
                        .map_values(f));
                }
                match perm_position(&self.map_role_to_permission[i].1, &permission_did) {
                    None => {
                        proof {
                            let vals = self.map_role_to_permission@[i as int].1@;
                            assert(!old(self).perm_edge(x, permission_did@)) by {
                                if vals.map_values(f).contains(permission_did@) {
                                    let w = choose|w: int|
                                        0 <= w < vals.map_values(f).len() && vals.map_values(f)[w]
                                            == permission_did@;
                                    assert(vals[w].id@ == permission_did@);
                                }
                            }
                        }
                        Err(Error::PermissionNotExistInRole)
                    },
                    Some(j) => {
                        proof {
                            let vals = self.map_role_to_permission@[i as int].1@;
                            assert(vals.map_values(f)[j as int] == permission_did@);
                            assert(old(self).perm_edge(x, permission_did@));
                        }
                        let ghost before = self.map_role_to_permission@;
                        let ghost ii = i as int;
                        let ghost jj = j as int;
                        alist_remove_at(&mut self.map_role_to_permission, i, j);
                        proof {
                            let m = self.map_role_to_permission@;
                            assert forall|p: int| 0 <= p < m.len() implies (#[trigger] m[p]).0
                                == before[p].0 by {
                                if p != ii {
                                    assert(m[p] == before[p]);
                                }
                            }
                            assert(alist_keys_unique(m)) by {
                                assert forall|p: int, q: int| 0 <= p < q < m.len() implies m[p].0@
                                    != m[q].0@ by {
                                    assert(m[p].0 == before[p].0 && m[q].0 == before[q].0);
                                }
                            }
                            lemma_alist_at(before, ii);
                            lemma_alist_at(m, ii);
                            lemma_map_values_remove(before[ii].1@, f, jj);
                            let s = old(self).permissions_of(x);
                            assert(self.permissions_of(x) == s.remove(jj));
                            assert(s[jj] == permission_did@);
                            assert(s.no_duplicates());
                            let idx = s.index_of(permission_did@);
                            assert(0 <= idx < s.len() && s[idx] == permission_did@);
                            assert(idx == jj) by {
                                if idx != jj {
                                    assert(s[idx] != s[jj]);
                                }
                            }
                            assert forall|k: Seq<u8>| k != x implies (#[trigger] self.permissions_of(k))
                                == old(self).permissions_of(k) by {
                                if alist_has_key(before, k) {
                                    let w = alist_index(before, k);
                                    assert(0 <= w < before.len() && before[w].0@ == k);
                                    assert(w != ii);
                                    assert(m[w] == before[w]);
                                    lemma_alist_at(m, w);
                                    lemma_alist_at(before, w);
                                } else {
                                    assert(!alist_has_key(m, k)) by {
                                        if alist_has_key(m, k) {
                                            let w = choose|w: int|
                                                0 <= w < m.len() && (#[trigger] m[w]).0@ == k;
                                            assert(before[w].0@ == k);
                                            assert(alist_has_key(before, k));
                                        }
                                    }
                                }
                            }
                            assert forall|k: Seq<u8>|
                                (#[trigger] self.is_perm_key(k)) <==> old(self).is_perm_key(k) by {
                                if alist_has_key(before, k) {
                                    let w = alist_index(before, k);
                                    assert(0 <= w < m.len() && m[w].0@ == k);
                                    assert(alist_has_key(m, k));
                                }
                                if alist_has_key(m, k) {
                                    let w = choose|w: int| 0 <= w < m.len() && (#[trigger] m[w]).0@
                                        == k;
                                    assert(before[w].0@ == k);
                                    assert(alist_has_key(before, k));
                                }
                            }
                            assert forall|k: Seq<u8>|
                                (#[trigger] self.permissions_of(k)).no_duplicates() by {
                                if k == x {
                                    lemma_remove_no_duplicates(s, jj);
                                } else {
                                    assert(self.permissions_of(k) == old(self).permissions_of(k));
                                    assert(old(self).permissions_of(k).no_duplicates());
                                }
                            }
                            lemma_remove_contains(s, jj);
                            assert forall|y: Seq<u8>, r2: Seq<u8>|
                                (#[trigger] self.perm_edge(y, r2)) <==> old(self).perm_edge(y, r2)
                                    && !(y == x && r2 == permission_did@) by {
                                if y == x {
                                    assert(self.permissions_of(y) == s.remove(jj));
                                } else {
                                    assert(self.permissions_of(y) == old(self).permissions_of(y));
                                }
                            }
                            lemma_frame_membership_inv(*self, *old(self));
                            lemma_frame_rl(*self, *old(self));
                            assert(self.wf());
                        }
                        Ok(())
                    },
                }
            },
        }
    }

    /// All members of `group_did`, in insertion order; empty when the
    /// group is unknown.
    pub fn read_user_group(&self, group_did: DIDType) -> (r: Vec<DIDType>)
        requires
            self.wf(),
        ensures
            id_views(r@) == self.members_of(group_did@),
    {
        let ghost f = |e: UserGroupEntity| e.id@;
        match alist_find(&self.map_group_has, &group_did) {
            None => {
                proof {
                    assert(id_views(Seq::<DIDType>::empty()) =~= Seq::<Seq<u8>>::empty());
                    assert(Seq::<UserGroupEntity>::empty().map_values(f) =~= Seq::<
                        Seq<u8>,
                    >::empty());
                }
                Vec::new()
            },
            Some(i) => {
                proof {
                    lemma_alist_at(self.map_group_has@, i as int);
                }
                let vals = &self.map_group_has[i].1;
                let mut out: Vec<DIDType> = Vec::new();
                let mut j: usize = 0;
                while j < vals.len()
                    invariant
                        0 <= j <= vals@.len(),
                        out@.len() == j,
                        forall|p: int| 0 <= p < j ==> out@[p]@ == (#[trigger] vals@[p]).id@,
                    decreases vals@.len() - j,
                {
                    out.push(vals[j].id);
                    j = j + 1;
                }
                proof {
                    assert(id_views(out@) =~= vals@.map_values(f));
                }
                out
            },
        }
    }

    /// All groups `user_did` belongs to, in insertion order; empty when
    /// the user is unknown.
    pub fn read_user_belongs(&self, user_did: DIDType) -> (r: Vec<DIDType>)
        requires
            self.wf(),
        ensures
            id_views(r@) == self.groups_of(user_did@),
    {
        let ghost f = |d: DIDType| d@;
        match alist_find(&self.map_user_group_entity_belong, &user_did) {
            None => {
                proof {
                    assert(id_views(Seq::<DIDType>::empty()) =~= Seq::<Seq<u8>>::empty());
                    assert(Seq::<DIDType>::empty().map_values(f) =~= Seq::<Seq<u8>>::empty());
                }
                Vec::new()
            },
            Some(i) => {
                proof {
                    lemma_alist_at(self.map_user_group_entity_belong@, i as int);
                }
                let vals = &self.map_user_group_entity_belong[i].1;
                let mut out: Vec<DIDType> = Vec::new();
                let mut j: usize = 0;
                while j < vals.len()
                    invariant
                        0 <= j <= vals@.len(),
                        out@.len() == j,
                        forall|p: int| 0 <= p < j ==> out@[p]@ == (#[trigger] vals@[p])@,
                    decreases vals@.len() - j,
                {
                    out.push(vals[j]);
                    j = j + 1;
                }
                proof {
                    assert(id_views(out@) =~= vals@.map_values(f));
                }
                out
            },
        }
    }

    /// The roles granted directly to `user_or_group_did`, in insertion
    /// order; empty when the identity is unknown.
    fn get_role(&self, user_or_group_did: &DIDType) -> (r: Vec<DIDType>)
        requires
            self.wf(),
        ensures
            id_views(r@) == self.roles_of(user_or_group_did@),
    {
        let ghost f = |rr: Role| rr.id@;
        match alist_find(&self.map_user_group_to_role, user_or_group_did) {
            None => {
                proof {
                    assert(id_views(Seq::<DIDType>::empty()) =~= Seq::<Seq<u8>>::empty());
                    assert(Seq::<Role>::empty().map_values(f) =~= Seq::<Seq<u8>>::empty());
                }
                Vec::new()
            },
            Some(i) => {
                proof {
                    lemma_alist_at(self.map_user_group_to_role@, i as int);
                }
                let vals = &self.map_user_group_to_role[i].1;
                let mut out: Vec<DIDType> = Vec::new();
                let mut j: usize = 0;
                while j < vals.len()
                    invariant
                        0 <= j <= vals@.len(),
                        out@.len() == j,
                        forall|p: int| 0 <= p < j ==> out@[p]@ == (#[trigger] vals@[p]).id@,
                    decreases vals@.len() - j,
                {
                    out.push(vals[j].id);
                    j = j + 1;
                }
                proof {
                    assert(id_views(out@) =~= vals@.map_values(f));
                }
                out
            },
        }
    }

    /// The permissions granted to `role_did`, in insertion order; empty
    /// when the role is unknown.
    pub fn read_permissions(&self, role_did: DIDType) -> (r: Vec<DIDType>)
        requires
            self.wf(),
        ensures
            id_views(r@) == self.permissions_of(role_did@),
    {
        let ghost f = |pp: Permission| pp.id@;
        match alist_find(&self.map_role_to_permission, &role_did) {
            None => {
                proof {
                    assert(id_views(Seq::<DIDType>::empty()) =~= Seq::<Seq<u8>>::empty());
                    assert(Seq::<Permission>::empty().map_values(f) =~= Seq::<Seq<u8>>::empty());
                }
                Vec::new()
            },
            Some(i) => {
                proof {
                    lemma_alist_at(self.map_role_to_permission@, i as int);
                }
                let vals = &self.map_role_to_permission[i].1;
                let mut out: Vec<DIDType> = Vec::new();
                let mut j: usize = 0;
                while j < vals.len()
                    invariant
                        0 <= j <= vals@.len(),
                        out@.len() == j,
                        forall|p: int| 0 <= p < j ==> out@[p]@ == (#[trigger] vals@[p]).id@,
                    decreases vals@.len() - j,
                {
                    out.push(vals[j].id);
                    j = j + 1;
                }
                proof {
                    assert(id_views(out@) =~= vals@.map_values(f));
                }
                out
            },
        }
    }

    /// Every role `user_or_group_did` holds — directly, or through a
    /// group it belongs to — deduplicated, in ascending byte order.
    pub fn read_user_or_group_roles(&self, user_or_group_did: DIDType) -> (r: Vec<DIDType>)
        requires
            self.wf(),
        ensures
            strictly_sorted(r@),
            forall|id: Seq<u8>|
                contains_id(r@, id) <==> self.effective_role(user_or_group_did@, id),
    {
        let ghost x = user_or_group_did@;
        let mut acc: Vec<DIDType> = Vec::new();
        let direct = self.get_role(&user_or_group_did);
        let mut i: usize = 0;
        while i < direct.len()
            invariant
                strictly_sorted(acc@),
                id_views(direct@) == self.roles_of(x),
                0 <= i <= direct@.len(),
                forall|id: Seq<u8>|
                    contains_id(acc@, id) <==> exists|p: int|
                        0 <= p < i && (#[trigger] direct@[p])@ == id,
            decreases direct@.len() - i,
        {
            let ghost prior_acc = acc@;
            sorted_insert(&mut acc, direct[i]);
            proof {
                assert forall|id: Seq<u8>|
                    contains_id(acc@, id) <==> exists|p: int|
                        0 <= p < i + 1 && (#[trigger] direct@[p])@ == id by {
                    if contains_id(acc@, id) {
                        if id == direct@[i as int]@ {
                            assert(0 <= (i as int) < i + 1 && direct@[i as int]@ == id);
                        } else {
                            assert(contains_id(prior_acc, id));
                            let p = choose|p: int| 0 <= p < i && (#[trigger] direct@[p])@ == id;
                            assert(0 <= p < i + 1 && direct@[p]@ == id);
                        }
                    }
                    if exists|p: int| 0 <= p < i + 1 && (#[trigger] direct@[p])@ == id {
                        let p = choose|p: int| 0 <= p < i + 1 && (#[trigger] direct@[p])@ == id;
                        if p < i {
                            assert(contains_id(prior_acc, id));
                        } else {
                            assert(id == direct@[i as int]@);
                        }
                        assert(contains_id(acc@, id));
                    }
                }
            }
            i = i + 1;
        }
        proof {
            assert forall|id: Seq<u8>| contains_id(acc@, id) <==> self.role_edge(x, id) by {
                lemma_id_views_contains(direct@, id);
                if contains_id(acc@, id) {
                    let p = choose|p: int|
                        0 <= p < direct@.len() && (#[trigger] direct@[p])@ == id;
                    assert(contains_id(direct@, id));
                }
                if self.role_edge(x, id) {
                    assert(id_views(direct@).contains(id));
                    assert(contains_id(direct@, id));
                    let w = choose|w: int| 0 <= w < direct@.len() && direct@[w]@ == id;
                    assert(0 <= w < direct@.len() && (#[trigger] direct@[w])@ == id);
                }
            }
        }
        let groups = self.read_user_belongs(user_or_group_did);
        let mut k: usize = 0;
        while k < groups.len()
            invariant
                self.wf(),
                strictly_sorted(acc@),
                id_views(groups@) == self.groups_of(x),
                0 <= k <= groups@.len(),
                forall|id: Seq<u8>|
                    contains_id(acc@, id) <==> self.role_edge(x, id) || exists|p: int|
                        0 <= p < k && self.role_edge((#[trigger] groups@[p])@, id),
            decreases groups@.len() - k,
        {
            let rs = self.get_role(&groups[k]);
            let ghost gk = groups@[k as int]@;
            let mut j: usize = 0;
            while j < rs.len()
                invariant
                    self.wf(),
                    strictly_sorted(acc@),
                    id_views(groups@) == self.groups_of(x),
                    id_views(rs@) == self.roles_of(gk),
                    gk == groups@[k as int]@,
                    0 <= k < groups@.len(),
                    0 <= j <= rs@.len(),
                    forall|id: Seq<u8>|
                        contains_id(acc@, id) <==> self.role_edge(x, id) || (exists|p: int|
                            0 <= p < k && self.role_edge((#[trigger] groups@[p])@, id)) || (
                        exists|q: int| 0 <= q < j && (#[trigger] rs@[q])@ == id),
                decreases rs@.len() - j,
            {
                let ghost prior_acc = acc@;
                sorted_insert(&mut acc, rs[j]);
                proof {
                    assert forall|id: Seq<u8>|
                        contains_id(acc@, id) <==> self.role_edge(x, id) || (exists|p: int|
                            0 <= p < k && self.role_edge((#[trigger] groups@[p])@, id)) || (
                        exists|q: int| 0 <= q < j + 1 && (#[trigger] rs@[q])@ == id) by {
                        if contains_id(acc@, id) {
                            if id == rs@[j as int]@ {
                                assert(0 <= (j as int) < j + 1 && rs@[j as int]@ == id);
                            } else {
                                assert(contains_id(prior_acc, id));
                                if exists|q: int| 0 <= q < j && (#[trigger] rs@[q])@ == id {
                                    let q = choose|q: int|
                                        0 <= q < j && (#[trigger] rs@[q])@ == id;
                                    assert(0 <= q < j + 1 && rs@[q]@ == id);
                                }
                            }
                        }
                        if exists|q: int| 0 <= q < j + 1 && (#[trigger] rs@[q])@ == id {
                            let q = choose|q: int| 0 <= q < j + 1 && (#[trigger] rs@[q])@ == id;
                            if q < j {
                                assert(contains_id(prior_acc, id));
                            } else {
                                assert(id == rs@[j as int]@);
                            }
                            assert(contains_id(acc@, id));
                        }
                    }
                }
                j = j + 1;
            }
            proof {
                assert forall|id: Seq<u8>|
                    contains_id(acc@, id) <==> self.role_edge(x, id) || exists|p: int|
                        0 <= p < k + 1 && self.role_edge((#[trigger] groups@[p])@, id) by {
                    lemma_id_views_contains(rs@, id);
                    if contains_id(acc@, id) {
                        if exists|q: int| 0 <= q < rs@.len() && (#[trigger] rs@[q])@ == id {
                            assert(contains_id(rs@, id));
                            assert(id_views(rs@).contains(id));
                            assert(self.role_edge(gk, id));
                            assert(0 <= (k as int) < k + 1 && self.role_edge(
                                (groups@[k as int])@,
                                id,
                            ));
                        } else if exists|p: int|
                            0 <= p < k && self.role_edge((#[trigger] groups@[p])@, id) {
                            let p = choose|p: int|
                                0 <= p < k && self.role_edge((#[trigger] groups@[p])@, id);
                            assert(0 <= p < k + 1 && self.role_edge((groups@[p])@, id));
                        }
                    }
                    if exists|p: int| 0 <= p < k + 1 && self.role_edge((#[trigger] groups@[p])@, id) {
                        let p = choose|p: int|
                            0 <= p < k + 1 && self.role_edge((#[trigger] groups@[p])@, id);
                        if p < k {
                        } else {
                            assert(self.role_edge(gk, id));
                            assert(id_views(rs@).contains(id));
                            assert(contains_id(rs@, id));
                            let q = choose|q: int| 0 <= q < rs@.len() && rs@[q]@ == id;
                            assert(0 <= q < rs@.len() && (#[trigger] rs@[q])@ == id);
                        }
                    }
                }
            }
            k = k + 1;
        }
        proof {
            assert forall|id: Seq<u8>|
                contains_id(acc@, id) <==> self.effective_role(x, id) by {
                if contains_id(acc@, id) && !self.role_edge(x, id) {
                    let p = choose|p: int|
                        0 <= p < groups@.len() && self.role_edge((#[trigger] groups@[p])@, id);
                    lemma_id_views_contains(groups@, groups@[p]@);
                    assert(id_views(groups@)[p] == groups@[p]@);
                    assert(self.groups_of(x).contains(groups@[p]@));
                    assert(self.belong_edge(x, groups@[p]@) && self.role_edge(groups@[p]@, id));
                }
                if self.effective_role(x, id) && !self.role_edge(x, id) {
                    let g = choose|g: Seq<u8>|
                        #[trigger] self.belong_edge(x, g) && self.role_edge(g, id);
                    assert(id_views(groups@).contains(g));
                    lemma_id_views_contains(groups@, g);
                    assert(contains_id(groups@, g));
                    let w = choose|w: int| 0 <= w < groups@.len() && groups@[w]@ == g;
                    assert(0 <= w < groups@.len() && self.role_edge((#[trigger] groups@[w])@, id));
                }
            }
        }
        acc
    }

    /// Whether `user_did` holds `permission_did` through any of its
    /// effective roles.
    pub fn check_access(&self, user_did: DIDType, permission_did: DIDType) -> (r: bool)
        requires
            self.wf(),
        ensures
            r == self.allowed(user_did@, permission_did@),
    {
        let roles = self.read_user_or_group_roles(user_did);
        let mut i: usize = 0;
        while i < roles.len()
            invariant
                self.wf(),
                0 <= i <= roles@.len(),
                forall|id: Seq<u8>|
                    contains_id(roles@, id) <==> self.effective_role(user_did@, id),
                forall|p: int|
                    0 <= p < i ==> !self.perm_edge((#[trigger] roles@[p])@, permission_did@),
            decreases roles@.len() - i,
        {
            let perms = self.read_permissions(roles[i]);
            if contains_did(&perms, &permission_did) {
                proof {
                    lemma_id_views_contains(perms@, permission_did@);
                    assert(self.perm_edge(roles@[i as int]@, permission_did@));
                    assert(contains_id(roles@, roles@[i as int]@));
                    assert(self.effective_role(user_did@, roles@[i as int]@));
                    assert(self.allowed(user_did@, permission_did@));
                }
                return true;
            }
            proof {
                lemma_id_views_contains(perms@, permission_did@);
            }
            i = i + 1;
        }
        proof {
            if self.allowed(user_did@, permission_did@) {
                let role = choose|role: Seq<u8>|
                    #[trigger] self.effective_role(user_did@, role) && self.perm_edge(
                        role,
                        permission_did@,
                    );
                assert(contains_id(roles@, role));
                let w = choose|w: int| 0 <= w < roles@.len() && roles@[w]@ == role;
                assert(!self.perm_edge(roles@[w]@, permission_did@));
            }
        }
        false
    }

}

/// An untouched forward membership map leaves its model untouched.
proof fn lemma_frame_gh(a: RBAC, b: RBAC)
    requires
        a.map_group_has == b.map_group_has,
    ensures
        forall|k: Seq<u8>| (#[trigger] a.members_of(k)) == b.members_of(k),
        forall|k: Seq<u8>| (#[trigger] a.is_group_key(k)) <==> b.is_group_key(k),
        a.gh_ok() <==> b.gh_ok(),
{
    assert forall|k: Seq<u8>| (#[trigger] a.members_of(k)) == b.members_of(k) by {}
    assert forall|k: Seq<u8>| (#[trigger] a.is_group_key(k)) <==> b.is_group_key(k) by {}
    if a.gh_ok() {
        assert forall|k: Seq<u8>| (#[trigger] b.members_of(k)).no_duplicates() by {
            assert(a.members_of(k).no_duplicates());
        }
    }
    if b.gh_ok() {
        assert forall|k: Seq<u8>| (#[trigger] a.members_of(k)).no_duplicates() by {
            assert(b.members_of(k).no_duplicates());
        }
    }
}

/// An untouched reverse membership map leaves its model untouched.
proof fn lemma_frame_bl(a: RBAC, b: RBAC)
    requires
        a.map_user_group_entity_belong == b.map_user_group_entity_belong,
    ensures
        forall|k: Seq<u8>| (#[trigger] a.groups_of(k)) == b.groups_of(k),
        forall|k: Seq<u8>| (#[trigger] a.is_member_key(k)) <==> b.is_member_key(k),
        a.bl_ok() <==> b.bl_ok(),
{
    assert forall|k: Seq<u8>| (#[trigger] a.groups_of(k)) == b.groups_of(k) by {}
    assert forall|k: Seq<u8>| (#[trigger] a.is_member_key(k)) <==> b.is_member_key(k) by {}
    if a.bl_ok() {
        assert forall|k: Seq<u8>| (#[trigger] b.groups_of(k)).no_duplicates() by {
            assert(a.groups_of(k).no_duplicates());
        }
    }
    if b.bl_ok() {
        assert forall|k: Seq<u8>| (#[trigger] a.groups_of(k)).no_duplicates() by {
            assert(b.groups_of(k).no_duplicates());
        }
    }
}

/// An untouched role map leaves its model untouched.
proof fn lemma_frame_rl(a: RBAC, b: RBAC)
    requires
        a.map_user_group_to_role == b.map_user_group_to_role,
    ensures
        a.same_roles(b),
        a.rl_ok() <==> b.rl_ok(),
{
    assert forall|k: Seq<u8>| (#[trigger] a.roles_of(k)) == b.roles_of(k) by {}
    assert forall|k: Seq<u8>| (#[trigger] a.is_role_key(k)) <==> b.is_role_key(k) by {}
    if a.rl_ok() {
        assert forall|k: Seq<u8>| (#[trigger] b.roles_of(k)).no_duplicates() by {
            assert(a.roles_of(k).no_duplicates());
        }
    }
    if b.rl_ok() {
        assert forall|k: Seq<u8>| (#[trigger] a.roles_of(k)).no_duplicates() by {
            assert(b.roles_of(k).no_duplicates());
        }
    }
}

/// An untouched permission map leaves its model untouched.
proof fn lemma_frame_pm(a: RBAC, b: RBAC)
    requires
        a.map_role_to_permission == b.map_role_to_permission,
    ensures
        a.same_permissions(b),
        a.pm_ok() <==> b.pm_ok(),
{
    assert forall|k: Seq<u8>| (#[trigger] a.permissions_of(k)) == b.permissions_of(k) by {}
    assert forall|k: Seq<u8>| (#[trigger] a.is_perm_key(k)) <==> b.is_perm_key(k) by {}
    if a.pm_ok() {
        assert forall|k: Seq<u8>| (#[trigger] b.permissions_of(k)).no_duplicates() by {
            assert(a.permissions_of(k).no_duplicates());
        }
    }
    if b.pm_ok() {
        assert forall|k: Seq<u8>| (#[trigger] a.permissions_of(k)).no_duplicates() by {
            assert(b.permissions_of(k).no_duplicates());
        }
    }
}

/// Untouched membership maps leave the membership model, its mirror
/// property and the namespace disjointness untouched.
proof fn lemma_frame_membership_inv(a: RBAC, b: RBAC)
    requires
        a.map_group_has == b.map_group_has,
        a.map_user_group_entity_belong == b.map_user_group_entity_belong,
    ensures
        a.same_membership(b),
        a.mirrored() <==> b.mirrored(),
        a.namespaces_disjoint() <==> b.namespaces_disjoint(),
        a.gh_ok() <==> b.gh_ok(),
        a.bl_ok() <==> b.bl_ok(),
{
    lemma_frame_gh(a, b);
    lemma_frame_bl(a, b);
    if b.mirrored() {
        assert forall|g: Seq<u8>, u: Seq<u8>|
            (#[trigger] a.member_edge(g, u)) <==> (#[trigger] a.belong_edge(u, g)) by {
            assert(a.members_of(g) == b.members_of(g));
            assert(a.groups_of(u) == b.groups_of(u));
            assert(b.member_edge(g, u) <==> b.belong_edge(u, g));
        }
    }
    if a.mirrored() {
        assert forall|g: Seq<u8>, u: Seq<u8>|
            (#[trigger] b.member_edge(g, u)) <==> (#[trigger] b.belong_edge(u, g)) by {
            assert(a.members_of(g) == b.members_of(g));
            assert(a.groups_of(u) == b.groups_of(u));
            assert(a.member_edge(g, u) <==> a.belong_edge(u, g));
        }
    }
    if b.namespaces_disjoint() {
        assert forall|x: Seq<u8>|
            !((#[trigger] a.is_group_key(x)) && (#[trigger] a.is_member_key(x))) by {
            assert(!(b.is_group_key(x) && b.is_member_key(x)));
        }
    }
    if a.namespaces_disjoint() {
        assert forall|x: Seq<u8>|
            !((#[trigger] b.is_group_key(x)) && (#[trigger] b.is_member_key(x))) by {
            assert(!(a.is_group_key(x) && a.is_member_key(x)));
        }
    }
}

/// The position of the role whose identifier is `id`.
fn role_position(v: &Vec<Role>, id: &DIDType) -> (r: Option<usize>)
    ensures
        match r {
            Some(i) => i < v@.len() && v@[i as int].id@ == id@,
            None => forall|j: int| 0 <= j < v@.len() ==> (#[trigger] v@[j]).id@ != id@,
        },
{
    let mut i: usize = 0;
    while i < v.len()
        invariant
            0 <= i <= v@.len(),
            forall|j: int| 0 <= j < i ==> (#[trigger] v@[j]).id@ != id@,
        decreases v@.len() - i,
    {
        if id_eq(&v[i].id, id) {
            return Some(i);
        }
        i = i + 1;
    }
    None
}

/// The position of the permission whose identifier is `id`.
fn perm_position(v: &Vec<Permission>, id: &DIDType) -> (r: Option<usize>)
    ensures
        match r {
            Some(i) => i < v@.len() && v@[i as int].id@ == id@,
            None => forall|j: int| 0 <= j < v@.len() ==> (#[trigger] v@[j]).id@ != id@,
        },
{
    let mut i: usize = 0;
    while i < v.len()
        invariant
            0 <= i <= v@.len(),
            forall|j: int| 0 <= j < i ==> (#[trigger] v@[j]).id@ != id@,
        decreases v@.len() - i,
    {
        if id_eq(&v[i].id, id) {
            return Some(i);
        }
        i = i + 1;
    }
    None
}

/// Whether `id` occurs in `v`.
fn contains_did(v: &Vec<DIDType>, id: &DIDType) -> (r: bool)
    ensures
        r <==> contains_id(v@, id@),
{
    match did_position(v, id) {
        Some(i) => {
            proof {
                assert(0 <= (i as int) < v@.len() && v@[i as int]@ == id@);
            }
            true
        },
        None => {
            proof {
                if contains_id(v@, id@) {
                    let w = choose|w: int| 0 <= w < v@.len() && v@[w]@ == id@;
                    assert((v@[w])@ != id@);
                }
            }
            false
        },
    }
}

/// The position of the entity whose identifier is `id`.
fn entity_position(v: &Vec<UserGroupEntity>, id: &DIDType) -> (r: Option<usize>)
    ensures
        match r {
            Some(i) => i < v@.len() && v@[i as int].id@ == id@,
            None => forall|j: int| 0 <= j < v@.len() ==> (#[trigger] v@[j]).id@ != id@,
        },
{
    let mut i: usize = 0;
    while i < v.len()
        invariant
            0 <= i <= v@.len(),
            forall|j: int| 0 <= j < i ==> (#[trigger] v@[j]).id@ != id@,
        decreases v@.len() - i,
    {
        if id_eq(&v[i].id, id) {
            return Some(i);
        }
        i = i + 1;
    }
    None
}

/// The position of identifier `id` in a plain identifier list.
fn did_position(v: &Vec<DIDType>, id: &DIDType) -> (r: Option<usize>)
    ensures
        match r {
            Some(i) => i < v@.len() && v@[i as int]@ == id@,
            None => forall|j: int| 0 <= j < v@.len() ==> (#[trigger] v@[j])@ != id@,
        },
{
    let mut i: usize = 0;
    while i < v.len()
        invariant
            0 <= i <= v@.len(),
            forall|j: int| 0 <= j < i ==> (#[trigger] v@[j])@ != id@,
        decreases v@.len() - i,
    {
        if id_eq(&v[i], id) {
            return Some(i);
        }
        i = i + 1;
    }
    None
}

/// The model of a state whose four relation vectors are empty.
proof fn lemma_fresh_model(r: RBAC)
    requires
        r.map_group_has@.len() == 0,
        r.map_user_group_entity_belong@.len() == 0,
        r.map_user_group_to_role@.len() == 0,
        r.map_role_to_permission@.len() == 0,
    ensures
        r.wf(),
        forall|g: Seq<u8>| (#[trigger] r.members_of(g)) == Seq::<Seq<u8>>::empty(),
        forall|u: Seq<u8>| (#[trigger] r.groups_of(u)) == Seq::<Seq<u8>>::empty(),
        forall|x: Seq<u8>| (#[trigger] r.roles_of(x)) == Seq::<Seq<u8>>::empty(),
        forall|p: Seq<u8>| (#[trigger] r.permissions_of(p)) == Seq::<Seq<u8>>::empty(),
        forall|k: Seq<u8>| !(#[trigger] r.is_group_key(k)),
        forall|k: Seq<u8>| !(#[trigger] r.is_member_key(k)),
        forall|k: Seq<u8>| !(#[trigger] r.is_perm_key(k)),
        forall|k: Seq<u8>| !(#[trigger] r.is_role_key(k)),
{
    assert forall|g: Seq<u8>| (#[trigger] r.members_of(g)) == Seq::<Seq<u8>>::empty() by {
        assert(!alist_has_key(r.map_group_has@, g));
        assert(Seq::<UserGroupEntity>::empty().map_values(|e: UserGroupEntity| e.id@)
            =~= Seq::<Seq<u8>>::empty());
    }
    assert forall|u: Seq<u8>| (#[trigger] r.groups_of(u)) == Seq::<Seq<u8>>::empty() by {
        assert(!alist_has_key(r.map_user_group_entity_belong@, u));
        assert(Seq::<DIDType>::empty().map_values(|d: DIDType| d@) =~= Seq::<Seq<u8>>::empty());
    }
    assert forall|x: Seq<u8>| (#[trigger] r.roles_of(x)) == Seq::<Seq<u8>>::empty() by {
        assert(!alist_has_key(r.map_user_group_to_role@, x));
        assert(Seq::<Role>::empty().map_values(|rr: Role| rr.id@) =~= Seq::<Seq<u8>>::empty());
    }
    assert forall|p: Seq<u8>| (#[trigger] r.permissions_of(p)) == Seq::<Seq<u8>>::empty() by {
        assert(!alist_has_key(r.map_role_to_permission@, p));
        assert(Seq::<Permission>::empty().map_values(|pp: Permission| pp.id@)
            =~= Seq::<Seq<u8>>::empty());
    }
    assert(r.gh_ok());
    assert(r.bl_ok());
    assert(r.rl_ok());
    assert(r.pm_ok());
    assert(r.mirrored());
    assert(r.namespaces_disjoint());
}

/// Symmetry of membership: a user is among a group's members exactly when
/// the group is among the user's groups. Constructors establish `wf` and
/// every operation preserves it, so this holds at every reachable state.
pub proof fn lemma_membership_symmetric(r: RBAC, g: Seq<u8>, u: Seq<u8>)
    requires
        r.wf(),
    ensures
        r.member_edge(g, u) <==> r.belong_edge(u, g),
{
}

/// Namespace disjointness: no identifier keys the forward membership
/// index (as a group) and the reverse one (as a member) at once, at any
/// reachable state.
pub proof fn lemma_namespace_disjoint(r: RBAC, x: Seq<u8>)
    requires
        r.wf(),
    ensures
        !(r.is_group_key(x) && r.is_member_key(x)),
{
}

/// Deduplication: no relation records an edge twice — an identity's
/// roles hold each role once, and likewise a group's members, a member's
/// groups and a role's permissions.
pub proof fn lemma_relations_duplicate_free(r: RBAC, x: Seq<u8>)
    requires
        r.wf(),
    ensures
        r.roles_of(x).no_duplicates(),
        r.members_of(x).no_duplicates(),
        r.groups_of(x).no_duplicates(),
        r.permissions_of(x).no_duplicates(),
{
}

/// A role granted directly to an identity, with a permission granted to
/// that role, yields access for that identity.
pub proof fn lemma_direct_grant_allows(r: RBAC, x: Seq<u8>, role: Seq<u8>, p: Seq<u8>)
    requires
        r.role_edge(x, role),
        r.perm_edge(role, p),
    ensures
        r.allowed(x, p),
{
    assert(r.effective_role(x, role));
}

/// Authorization is purely additive: granting a membership edge never
/// takes access away.
pub proof fn lemma_membership_grant_preserves_access(
    prior: RBAC,
    next: RBAC,
    g: Seq<u8>,
    u: Seq<u8>,
    x: Seq<u8>,
    p: Seq<u8>,
)
    requires
        next.membership_granted(prior, g, u),
        next.same_roles(prior),
        next.same_permissions(prior),
        prior.allowed(x, p),
    ensures
        next.allowed(x, p),
{
    let role = choose|role: Seq<u8>|
        #[trigger] prior.effective_role(x, role) && prior.perm_edge(role, p);
    assert(next.perm_edge(role, p)) by {
        assert(next.permissions_of(role) == prior.permissions_of(role));
    }
    assert(next.effective_role(x, role)) by {
        if prior.role_edge(x, role) {
            assert(next.roles_of(x) == prior.roles_of(x));
        } else {
            let g2 = choose|g2: Seq<u8>|
                #[trigger] prior.belong_edge(x, g2) && prior.role_edge(g2, role);
            assert(next.belong_edge(x, g2)) by {
                if x == u {
                    assert(next.groups_of(x) == prior.groups_of(u).push(g));
                    lemma_push_contains(prior.groups_of(u), g);
                } else {
                    assert(next.groups_of(x) == prior.groups_of(x));
                }
            }
            assert(next.roles_of(g2) == prior.roles_of(g2));
            assert(next.belong_edge(x, g2) && next.role_edge(g2, role));
        }
    }
}

/// Authorization is purely additive: granting a role never takes access
/// away.
pub proof fn lemma_role_grant_preserves_access(
    prior: RBAC,
    next: RBAC,
    y: Seq<u8>,
    ro: Seq<u8>,
    x: Seq<u8>,
    p: Seq<u8>,
)
    requires
        next.role_granted(prior, y, ro),
        next.same_membership(prior),
        next.same_permissions(prior),
        prior.allowed(x, p),
    ensures
        next.allowed(x, p),
{
    let role = choose|role: Seq<u8>|
        #[trigger] prior.effective_role(x, role) && prior.perm_edge(role, p);
    assert(next.perm_edge(role, p)) by {
        assert(next.permissions_of(role) == prior.permissions_of(role));
    }
    assert(next.effective_role(x, role)) by {
        if prior.role_edge(x, role) {
            assert(next.role_edge(x, role));
        } else {
            let g2 = choose|g2: Seq<u8>|
                #[trigger] prior.belong_edge(x, g2) && prior.role_edge(g2, role);
            assert(next.groups_of(x) == prior.groups_of(x));
            assert(next.role_edge(g2, role));
            assert(next.belong_edge(x, g2) && next.role_edge(g2, role));
        }
    }
}

/// Authorization is purely additive: granting a permission never takes
/// access away.
pub proof fn lemma_permission_grant_preserves_access(
    prior: RBAC,
    next: RBAC,
    ro: Seq<u8>,
    pe: Seq<u8>,
    x: Seq<u8>,
    p: Seq<u8>,
)
    requires
        next.permission_granted(prior, ro, pe),
        next.same_membership(prior),
        next.same_roles(prior),
        prior.allowed(x, p),
    ensures
        next.allowed(x, p),
{
    let role = choose|role: Seq<u8>|
        #[trigger] prior.effective_role(x, role) && prior.perm_edge(role, p);
    assert(next.perm_edge(role, p));
    assert(next.effective_role(x, role)) by {
        if prior.role_edge(x, role) {
            assert(next.roles_of(x) == prior.roles_of(x));
        } else {
            let g2 = choose|g2: Seq<u8>|
                #[trigger] prior.belong_edge(x, g2) && prior.role_edge(g2, role);
            assert(next.groups_of(x) == prior.groups_of(x));
            assert(next.roles_of(g2) == prior.roles_of(g2));
            assert(next.belong_edge(x, g2) && next.role_edge(g2, role));
        }
    }
}

/// Access inherited through a group: a member of a group holds every
/// permission carried by a role of that group, with no direct grant of
/// its own.
pub proof fn lemma_group_grant_allows(r: RBAC, g: Seq<u8>, u: Seq<u8>, role: Seq<u8>, p: Seq<u8>)
    requires
        r.wf(),
        r.member_edge(g, u),
        r.role_edge(g, role),
        r.perm_edge(role, p),
    ensures
        r.allowed(u, p),
{
    assert(r.belong_edge(u, g));
    assert(r.effective_role(u, role));
}

} // verus!
