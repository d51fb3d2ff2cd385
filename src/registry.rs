use vstd::prelude::*;

use crate::role::{same_role, Role, RoleSpec};

verus! {

/// The roles of a sequence, as values.
pub open spec fn roles_view(v: Seq<Role>) -> Seq<RoleSpec> {
    v.map_values(|r: Role| r@)
}

/// Whether `s` holds an entry equal to `r`.
pub open spec fn has_role(s: Seq<RoleSpec>, r: RoleSpec) -> bool {
    exists|i: int| 0 <= i < s.len() && same_role(s[i], r)
}

/// Whether `add` takes `r` into `s`: it is not `Unknown` and not held yet.
pub open spec fn can_add(s: Seq<RoleSpec>, r: RoleSpec) -> bool {
    !(r is Unknown) && !has_role(s, r)
}

/// The roles after `add(r)` on `s`.
pub open spec fn after_add(s: Seq<RoleSpec>, r: RoleSpec) -> Seq<RoleSpec> {
    if can_add(s, r) {
        s.push(r)
    } else {
        s
    }
}

/// The names of the controllers in `s`, in order.
pub open spec fn controller_names(s: Seq<RoleSpec>) -> Seq<Seq<char>>
    decreases s.len(),
{
    if s.len() == 0 {
        Seq::empty()
    } else {
        let rest = controller_names(s.drop_last());
        match s.last() {
            RoleSpec::Controller(n) => rest.push(n),
            _ => rest,
        }
    }
}

/// The names of the receivers in `s`, in order.
pub open spec fn receiver_names(s: Seq<RoleSpec>) -> Seq<Seq<char>>
    decreases s.len(),
{
    if s.len() == 0 {
        Seq::empty()
    } else {
        let rest = receiver_names(s.drop_last());
        match s.last() {
            RoleSpec::Receiver(n) => rest.push(n),
            _ => rest,
        }
    }
}

/// The directory of connected roles, in order of arrival.
pub struct RoleContainer {
    roles: Vec<Role>,
}

impl View for RoleContainer {
    type V = Seq<RoleSpec>;

    closed spec fn view(&self) -> Seq<RoleSpec> {
        roles_view(self.roles@)
    }
}

impl RoleContainer {
    /// No `Unknown` entry, and no two equal entries.
    pub open spec fn wf(&self) -> bool {
        &&& forall|i: int| 0 <= i < self@.len() ==> !(self@[i] is Unknown)
        &&& forall|i: int, j: int|
            0 <= i < self@.len() && 0 <= j < self@.len() && i != j ==> !same_role(
                #[trigger] self@[i],
                #[trigger] self@[j],
            )
    }

    /// An empty directory.
    pub fn new() -> (r: RoleContainer)
        ensures
            r.wf(),
            r@ == Seq::<RoleSpec>::empty(),
    {
        let r = RoleContainer { roles: Vec::new() };
        proof {
            assert(r@ =~= Seq::<RoleSpec>::empty());
        }
        r
    }

    /// The number of roles held.
    pub fn len(&self) -> (r: usize)
        ensures
            r == self@.len(),
    {
        self.roles.len()
    }

    /// Whether a role equal to `role` is held.
    pub fn contains(&self, role: &Role) -> (r: bool)
        ensures
            r == has_role(self@, role@),
    {
        let mut i: usize = 0;
        while i < self.roles.len()
            invariant
                i <= self.roles@.len(),
                self@ == roles_view(self.roles@),
                forall|k: int| 0 <= k < i ==> !same_role(#[trigger] self@[k], role@),
            decreases self.roles@.len() - i,
        {
            if self.roles[i].same_as(role) {
                assert(same_role(self@[i as int], role@));
                return true;
            }
            i = i + 1;
        }
        false
    }

    /// Adds `role` unless it is `Unknown` or an equal role is already held;
    /// returns whether it was added.
    pub fn add(&mut self, role: Role) -> (r: bool)
        requires
            old(self).wf(),
        ensures
            final(self).wf(),
            r == can_add(old(self)@, role@),
            final(self)@ == after_add(old(self)@, role@),
    {
        if let Role::Unknown = role {
            return false;
        }
        if self.contains(&role) {
            return false;
        }
        self.roles.push(role);
        proof {
            assert(roles_view(self.roles@) =~= old(self)@.push(role@));
            assert(self@ == old(self)@.push(role@));
            assert forall|i: int, j: int|
                0 <= i < self@.len() && 0 <= j < self@.len() && i != j implies !same_role(
                #[trigger] self@[i],
                #[trigger] self@[j],
            ) by {
                if i == self@.len() - 1 {
                    assert(!same_role(old(self)@[j], role@));
                    match (role@, old(self)@[j]) {
                        (RoleSpec::Controller(_), RoleSpec::Controller(_)) => {},
                        (RoleSpec::Receiver(_), RoleSpec::Receiver(_)) => {},
                        _ => {},
                    }
                }
            }
        }
        true
    }

    /// Removes the entry equal to `role`; returns whether there was one.
    pub fn remove(&mut self, role: &Role) -> (r: bool)
        requires
            old(self).wf(),
        ensures
            final(self).wf(),
            r == has_role(old(self)@, role@),
            r ==> exists|i: int|
                0 <= i < old(self)@.len() && same_role(old(self)@[i], role@) && final(self)@
                    == old(self)@.remove(i),
            !r ==> final(self)@ == old(self)@,
    {
        let mut i: usize = 0;
        while i < self.roles.len()
            invariant
                i <= self.roles@.len(),
                self.roles@ == old(self).roles@,
                self@ == old(self)@,
                old(self).wf(),
                forall|k: int| 0 <= k < i ==> !same_role(#[trigger] self@[k], role@),
            decreases self.roles@.len() - i,
        {
            if self.roles[i].same_as(role) {
                let ghost k = i as int;
                assert(self.roles@[k]@ == old(self)@[k]);
                self.roles.remove(i);
                proof {
                    assert(roles_view(self.roles@) =~= old(self)@.remove(k));
                    assert forall|a: int, b: int|
                        0 <= a < self@.len() && 0 <= b < self@.len() && a != b implies !same_role(
                        #[trigger] self@[a],
                        #[trigger] self@[b],
                    ) by {
                        let a0 = if a < k { a } else { a + 1 };
                        let b0 = if b < k { b } else { b + 1 };
                        assert(self@[a] == old(self)@[a0]);
                        assert(self@[b] == old(self)@[b0]);
                        assert(!same_role(old(self)@[a0], old(self)@[b0]));
                    }
                    assert forall|a: int| 0 <= a < self@.len() implies !(self@[a] is Unknown) by {
                        let a0 = if a < k { a } else { a + 1 };
                        assert(self@[a] == old(self)@[a0]);
                    }
                }
                return true;
            }
            i = i + 1;
        }
        false
    }

    /// A copy of the held roles, in order.
    pub fn list(&self) -> (r: Vec<Role>)
        ensures
            roles_view(r@) == self@,
    {
        let mut out: Vec<Role> = Vec::new();
        let mut i: usize = 0;
        while i < self.roles.len()
            invariant
                i <= self.roles@.len(),
                out@.len() == i,
                forall|j: int| 0 <= j < i ==> #[trigger] out@[j]@ == self@[j],
                self@ == roles_view(self.roles@),
            decreases self.roles@.len() - i,
        {
            let c = self.roles[i].copied();
            out.push(c);
            i = i + 1;
        }
        proof {
            assert(roles_view(out@) =~= self@);
        }
        out
    }

    /// The names of the held controllers, in order.
    pub fn list_controllers(&self) -> (r: Vec<String>)
        ensures
            r@.map_values(|s: String| s@) == controller_names(self@),
    {
        let mut out: Vec<String> = Vec::new();
        let mut i: usize = 0;
        while i < self.roles.len()
            invariant
                i <= self.roles@.len(),
                out@.map_values(|s: String| s@) == controller_names(self@.subrange(0, i as int)),
                self@ == roles_view(self.roles@),
            decreases self.roles@.len() - i,
        {
            let ghost before = out@;
            if let Role::Controller(name) = &self.roles[i] {
                out.push(name.clone());
            }
            proof {
                let s = self@.subrange(0, i + 1);
                assert(s.drop_last() =~= self@.subrange(0, i as int));
                assert(out@.map_values(|s: String| s@) =~= controller_names(s));
            }
            i = i + 1;
        }
        proof {
            assert(self@.subrange(0, self@.len() as int) =~= self@);
        }
        out
    }

    /// The names of the held receivers, in order.
    pub fn list_receivers(&self) -> (r: Vec<String>)
        ensures
            r@.map_values(|s: String| s@) == receiver_names(self@),
    {
        let mut out: Vec<String> = Vec::new();
        let mut i: usize = 0;
        while i < self.roles.len()
            invariant
                i <= self.roles@.len(),
                out@.map_values(|s: String| s@) == receiver_names(self@.subrange(0, i as int)),
                self@ == roles_view(self.roles@),
            decreases self.roles@.len() - i,
        {
            if let Role::Receiver(name) = &self.roles[i] {
                out.push(name.clone());
            }
            proof {
                let s = self@.subrange(0, i + 1);
                assert(s.drop_last() =~= self@.subrange(0, i as int));
                assert(out@.map_values(|s: String| s@) =~= receiver_names(s));
            }
            i = i + 1;
        }
        proof {
            assert(self@.subrange(0, self@.len() as int) =~= self@);
        }
        out
    }
}

/// Adding a role a second time is refused and changes nothing.
pub proof fn lemma_add_twice(s: Seq<RoleSpec>, r: RoleSpec)
    ensures
        !can_add(after_add(s, r), r),
        after_add(after_add(s, r), r) == after_add(s, r),
        after_add(after_add(s, r), r).len() == after_add(s, r).len(),
{
    if can_add(s, r) {
        let s1 = s.push(r);
        assert(s1[s.len() as int] == r);
        assert(same_role(s1[s.len() as int], r));
    }
}

/// `Unknown` is never taken in.
pub proof fn lemma_unknown_never_added(s: Seq<RoleSpec>)
    ensures
        after_add(s, RoleSpec::Unknown) == s,
{
}

/// In a well-formed registry, taking out the one entry equal to `r` leaves
/// none equal to it.
pub proof fn lemma_removed_absent(s: Seq<RoleSpec>, t: Seq<RoleSpec>, r: RoleSpec)
    requires
        forall|i: int, j: int|
            0 <= i < s.len() && 0 <= j < s.len() && i != j ==> !same_role(
                #[trigger] s[i],
                #[trigger] s[j],
            ),
        has_role(s, r) ==> exists|i: int|
            0 <= i < s.len() && same_role(s[i], r) && t == s.remove(i),
        !has_role(s, r) ==> t == s,
    ensures
        !has_role(t, r),
        has_role(s, r) ==> t.len() + 1 == s.len(),
{
    if has_role(s, r) {
        let i = choose|i: int| 0 <= i < s.len() && same_role(s[i], r) && t == s.remove(i);
        if has_role(t, r) {
            let j = choose|j: int| 0 <= j < t.len() && same_role(t[j], r);
            let j0 = if j < i { j } else { j + 1 };
            assert(t[j] == s[j0]);
            assert(!same_role(s[i], s[j0]));
            match (s[i], s[j0], r) {
                (RoleSpec::Controller(_), RoleSpec::Controller(_), RoleSpec::Controller(_)) => {},
                (RoleSpec::Receiver(_), RoleSpec::Receiver(_), RoleSpec::Receiver(_)) => {},
                _ => {},
            }
        }
    }
}

} // verus!
