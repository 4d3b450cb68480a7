//! The allow-list: which peer nodes may connect, changed only by the admin.

use vstd::prelude::*;

use crate::common::{Response, StashError, error_message};
use crate::text::same_name;

verus! {

/// The admin node and the nodes that it has let in.
pub struct AllowModel {
    pub admin: Seq<char>,
    pub nodes: Seq<Seq<char>>,
}

/// Whether `node` may connect.
pub open spec fn allowed(m: AllowModel, node: Seq<char>) -> bool {
    node == m.admin || m.nodes.contains(node)
}

/// The list after `caller` asks to let `node` in: only the admin may, and
/// a node already let in is not listed twice.
pub open spec fn after_add(m: AllowModel, caller: Seq<char>, node: Seq<char>) -> AllowModel {
    if caller == m.admin && !allowed(m, node) {
        AllowModel { admin: m.admin, nodes: m.nodes.push(node) }
    } else {
        m
    }
}

/// The list after `caller` asks to take `node` off: only the admin may.
pub open spec fn after_remove(m: AllowModel, caller: Seq<char>, node: Seq<char>) -> AllowModel {
    if caller == m.admin {
        AllowModel { admin: m.admin, nodes: m.nodes.filter(|n: Seq<char>| n != node) }
    } else {
        m
    }
}

/// The admin is always let in.
pub proof fn lemma_admin_allowed(m: AllowModel)
    ensures
        allowed(m, m.admin),
{
}

/// Once the admin has added a node, that node is let in.
pub proof fn lemma_added_allowed(m: AllowModel, node: Seq<char>)
    ensures
        allowed(after_add(m, m.admin, node), node),
{
    if !allowed(m, node) {
        let m2 = after_add(m, m.admin, node);
        assert(m2.nodes[m2.nodes.len() - 1] == node);
    }
}

/// Once the admin has removed a node other than itself, that node is no
/// longer let in.
pub proof fn lemma_removed_denied(m: AllowModel, node: Seq<char>)
    requires
        node != m.admin,
    ensures
        !allowed(after_remove(m, m.admin, node), node),
{
    let p = |n: Seq<char>| n != node;
    let f = m.nodes.filter(p);
    m.nodes.filter_lemma(p);
    assert(!f.contains(node)) by {
        if f.contains(node) {
            let k = choose|k: int| 0 <= k < f.len() && f[k] == node;
            assert(p(f[k]));
        }
    }
}

/// A caller other than the admin changes nothing.
pub proof fn lemma_only_admin_changes(m: AllowModel, caller: Seq<char>, node: Seq<char>)
    requires
        caller != m.admin,
    ensures
        after_add(m, caller, node) == m,
        after_remove(m, caller, node) == m,
{
}

/// The allow-list of node identities.  The admin is fixed at start and is
/// always let in; only the admin changes the list.
pub struct AllowList {
    admin: String,
    nodes: Vec<String>,
}

impl View for AllowList {
    type V = AllowModel;

    closed spec fn view(&self) -> AllowModel {
        AllowModel { admin: self.admin@, nodes: self.nodes@.map_values(|s: String| s@) }
    }
}

impl AllowList {
    /// An allow-list with admin `admin` and the stored nodes `nodes`.
    pub fn new(admin: String, nodes: Vec<String>) -> (r: AllowList)
        ensures
            r@.admin == admin@,
            r@.nodes == nodes@.map_values(|s: String| s@),
    {
        AllowList { admin, nodes }
    }

    /// The admin's identity.
    pub fn admin(&self) -> (r: &str)
        ensures
            r@ == self@.admin,
    {
        self.admin.as_str()
    }

    /// The nodes let in by the admin, as stored.
    pub fn nodes(&self) -> (r: &Vec<String>)
        ensures
            r@.map_values(|s: String| s@) == self@.nodes,
    {
        &self.nodes
    }

    /// Whether `node` may connect: the admin or a listed node.
    pub fn allow(&self, node: &str) -> (r: bool)
        ensures
            r == allowed(self@, node@),
    {
        if same_name(node, self.admin.as_str()) {
            return true;
        }
        let mut i: usize = 0;
        while i < self.nodes.len()
            invariant
                i <= self.nodes@.len(),
                forall|j: int| 0 <= j < i ==> self@.nodes[j] != node@,
            decreases self.nodes@.len() - i,
        {
            if same_name(self.nodes[i].as_str(), node) {
                proof {
                    assert(self@.nodes[i as int] == node@);
                }
                return true;
            }
            i = i + 1;
        }
        false
    }

    /// Lets `node` in when `caller` is the admin; a node already let in is
    /// not listed twice.  Returns whether the caller was the admin.
    pub fn add(&mut self, caller: &str, node: &str) -> (r: bool)
        ensures
            r == (caller@ == old(self)@.admin),
            final(self)@ == after_add(old(self)@, caller@, node@),
    {
        if !same_name(caller, self.admin.as_str()) {
            return false;
        }
        if self.allow(node) {
            return true;
        }
        let ghost prev = self@;
        self.nodes.push(String::from_str(node));
        proof {
            assert(self@.nodes =~= prev.nodes.push(node@));
        }
        true
    }

    /// Takes `node` off the list when `caller` is the admin; a node not on
    /// it is no error.  Returns whether the caller was the admin.
    pub fn remove(&mut self, caller: &str, node: &str) -> (r: bool)
        ensures
            r == (caller@ == old(self)@.admin),
            final(self)@ == after_remove(old(self)@, caller@, node@),
    {
        if !same_name(caller, self.admin.as_str()) {
            return false;
        }
        let ghost all = self@.nodes;
        let ghost keep = |n: Seq<char>| n != node@;
        let mut kept: Vec<String> = Vec::new();
        let mut i: usize = 0;
        while i < self.nodes.len()
            invariant
                i <= self.nodes@.len(),
                all == self@.nodes,
                keep == (|n: Seq<char>| n != node@),
                kept@.map_values(|s: String| s@) == all.subrange(0, i as int).filter(keep),
            decreases self.nodes@.len() - i,
        {
            let ghost prev = kept@;
            proof {
                reveal(Seq::filter);
                let sub = all.subrange(0, i + 1);
                assert(sub.drop_last() =~= all.subrange(0, i as int));
                assert(sub.last() == all[i as int]);
            }
            if !same_name(self.nodes[i].as_str(), node) {
                let c = self.nodes[i].clone();
                kept.push(c);
                proof {
                    assert(kept@.map_values(|s: String| s@) =~= prev.map_values(|s: String| s@).push(
                        all[i as int],
                    ));
                }
            }
            i = i + 1;
        }
        proof {
            assert(all.subrange(0, all.len() as int) =~= all);
        }
        self.nodes = kept;
        true
    }

    /// Handles a request of `caller` to let `node` in.
    pub fn add_client(&mut self, caller: &str, node: &str) -> (r: Response<String>)
        ensures
            caller@ == old(self)@.admin ==> (r matches Response::Success(s) && s@ == "OK"@),
            caller@ != old(self)@.admin ==> (r matches Response::Failure(m) && m@ == error_message(
                StashError::Unauthorized,
            )),
            final(self)@ == after_add(old(self)@, caller@, node@),
    {
        if self.add(caller, node) {
            Response::ok()
        } else {
            StashError::Unauthorized.response()
        }
    }

    /// Handles a request of `caller` to take `node` off the list.
    pub fn remove_client(&mut self, caller: &str, node: &str) -> (r: Response<String>)
        ensures
            caller@ == old(self)@.admin ==> (r matches Response::Success(s) && s@ == "OK"@),
            caller@ != old(self)@.admin ==> (r matches Response::Failure(m) && m@ == error_message(
                StashError::Unauthorized,
            )),
            final(self)@ == after_remove(old(self)@, caller@, node@),
    {
        if self.remove(caller, node) {
            Response::ok()
        } else {
            StashError::Unauthorized.response()
        }
    }
}

} // verus!
