//! Environments: frames of name bindings linked to the frame that encloses them.
//!
//! All environments of a run live in one growing list and are referred to by
//! their index in it, so that closures and calls in flight can share them.

use vstd::prelude::*;
use crate::table::Table;
use crate::types::Object;

verus! {

/// One frame of bindings and the handle of the frame around it.
#[derive(Debug)]
pub struct Environment {
    pub values: Table<Object>,
    pub enclosing: Option<usize>,
}

impl Environment {
    /// The frame's invariant.
    pub open spec fn wf(&self) -> bool {
        self.values.wf()
    }

    /// An empty frame inside `enclosing`.
    pub fn new(enclosing: Option<usize>) -> (r: Self)
        ensures
            r.wf(),
            r.values@ == Map::<Seq<char>, Object>::empty(),
            r.enclosing == enclosing,
    {
        Self { values: Table::new(), enclosing }
    }

    /// Binds `name` in this frame, replacing an earlier binding of the name in
    /// this frame only.
    pub fn set(&mut self, name: String, value: Object)
        requires
            old(self).wf(),
        ensures
            final(self).wf(),
            final(self).enclosing == old(self).enclosing,
            final(self).values@ == old(self).values@.insert(name@, value),
    {
        self.values.insert(name, value);
    }
}

/// Every frame of the list keeps its invariant.
pub open spec fn envs_wf(envs: Seq<Environment>) -> bool {
    forall|i: int| 0 <= i < envs.len() ==> (#[trigger] envs[i]).wf()
}

/// Every frame was created after the frame that encloses it.
pub open spec fn envs_ordered(envs: Seq<Environment>) -> bool {
    forall|i: int|
        0 <= i < envs.len() ==> match (#[trigger] envs[i]).enclosing {
            Some(p) => p < i,
            None => true,
        }
}

/// The frame reached from `env` by following `distance` links outwards, if the
/// chain is that long.
pub open spec fn ancestor_of(envs: Seq<Environment>, env: usize, distance: nat) -> Option<usize>
    decreases distance,
{
    if env >= envs.len() {
        None
    } else if distance == 0 {
        Some(env)
    } else {
        match envs[env as int].enclosing {
            Some(p) => ancestor_of(envs, p, (distance - 1) as nat),
            None => None,
        }
    }
}

/// The value bound to `name` in the frame `distance` links out from `env`.
pub open spec fn value_at(envs: Seq<Environment>, env: usize, distance: nat, name: Seq<char>)
    -> Option<Object> {
    match ancestor_of(envs, env, distance) {
        Some(a) => if envs[a as int].values@.contains_key(name) {
            Some(envs[a as int].values@[name])
        } else {
            None
        },
        None => None,
    }
}

/// `post` is `pre` with `name` bound to `value` in frame `a` and nothing else changed.
pub open spec fn bound_in(
    pre: Seq<Environment>,
    post: Seq<Environment>,
    a: usize,
    name: Seq<char>,
    value: Object,
) -> bool {
    &&& a < pre.len()
    &&& post.len() == pre.len()
    &&& post[a as int].enclosing == pre[a as int].enclosing
    &&& post[a as int].values@ == pre[a as int].values@.insert(name, value)
    &&& forall|i: int| 0 <= i < pre.len() && i != a ==> #[trigger] post[i] == pre[i]
}

/// How many links out from `env` the nearest frame that binds `name` lies,
/// when frames are searched outwards along the chain; `None` if no frame of
/// the chain binds the name.
pub open spec fn nearest_binding(envs: Seq<Environment>, env: usize, name: Seq<char>) -> Option<
    nat,
>
    decreases env,
{
    if env >= envs.len() {
        None
    } else if envs[env as int].values@.contains_key(name) {
        Some(0nat)
    } else {
        match envs[env as int].enclosing {
            Some(p) => if p < env {
                match nearest_binding(envs, p, name) {
                    Some(d) => Some(d + 1),
                    None => None,
                }
            } else {
                None
            },
            None => None,
        }
    }
}

fn ancestor(envs: &Vec<Environment>, env: usize, distance: usize) -> (r: Option<usize>)
    ensures
        r == ancestor_of(envs@, env, distance as nat),
        r matches Some(a) ==> a < envs@.len(),
{
    let mut current: usize = env;
    let mut left: usize = distance;
    while left > 0
        invariant
            ancestor_of(envs@, current, left as nat) == ancestor_of(envs@, env, distance as nat),
        decreases left,
    {
        if current >= envs.len() {
            return None;
        }
        match envs[current].enclosing {
            Some(p) => {
                current = p;
            },
            None => {
                return None;
            },
        }
        left -= 1;
    }
    if current >= envs.len() {
        None
    } else {
        Some(current)
    }
}

/// Reads `name` in the frame `distance` links out from `env`; `None` if the
/// chain is shorter or the frame does not bind the name.
pub fn get_at(envs: &Vec<Environment>, env: usize, distance: usize, name: &String) -> (r: Option<
    Object,
>)
    requires
        envs_wf(envs@),
    ensures
        r == value_at(envs@, env, distance as nat, name@),
{
    match ancestor(envs, env, distance) {
        Some(a) => match envs[a].values.get(name) {
            Some(v) => Some(v.clone()),
            None => None,
        },
        None => None,
    }
}

/// Binds `name` to `value` in the frame `distance` links out from `env`, and
/// says whether that frame exists; without it nothing changes.
pub fn assign_at(
    envs: &mut Vec<Environment>,
    env: usize,
    distance: usize,
    name: String,
    value: Object,
) -> (r: bool)
    requires
        envs_wf(old(envs)@),
    ensures
        envs_wf(final(envs)@),
        r == ancestor_of(old(envs)@, env, distance as nat).is_some(),
        match ancestor_of(old(envs)@, env, distance as nat) {
            Some(a) => bound_in(old(envs)@, final(envs)@, a, name@, value),
            None => final(envs)@ == old(envs)@,
        },
{
    match ancestor(envs, env, distance) {
        Some(a) => {
            envs[a].set(name, value);
            true
        },
        None => false,
    }
}

/// A walk along a chain of frames ends inside the list.
pub proof fn lemma_ancestor_in_range(envs: Seq<Environment>, env: usize, distance: nat)
    ensures
        ancestor_of(envs, env, distance) matches Some(a) ==> a < envs.len(),
    decreases distance,
{
    if env < envs.len() && distance > 0 {
        match envs[env as int].enclosing {
            Some(p) => {
                lemma_ancestor_in_range(envs, p, (distance - 1) as nat);
            },
            None => {},
        }
    }
}

/// Binding a name leaves every chain of frames as it was.
pub proof fn lemma_binding_keeps_chains(
    pre: Seq<Environment>,
    post: Seq<Environment>,
    a: usize,
    name: Seq<char>,
    value: Object,
    env: usize,
    distance: nat,
)
    requires
        bound_in(pre, post, a, name, value),
    ensures
        ancestor_of(post, env, distance) == ancestor_of(pre, env, distance),
    decreases distance,
{
    if env < pre.len() && distance > 0 {
        assert(post[env as int].enclosing == pre[env as int].enclosing);
        match pre[env as int].enclosing {
            Some(p) => {
                lemma_binding_keeps_chains(pre, post, a, name, value, p, (distance - 1) as nat);
            },
            None => {},
        }
    }
}

/// An assignment through one chain of frames is seen through every chain that
/// reaches the same frame: after `name` is bound to `value` in the frame
/// `written` links out from `writer`, reading `name` at `read` links out from
/// `reader` gives `value` if both walks end in the same frame. A function's
/// calls read its closure's frames, so they see what was assigned after the
/// function was made.
pub proof fn lemma_assignment_is_shared(
    pre: Seq<Environment>,
    post: Seq<Environment>,
    writer: usize,
    written: nat,
    reader: usize,
    read: nat,
    name: Seq<char>,
    value: Object,
)
    requires
        ancestor_of(pre, writer, written).is_some(),
        ancestor_of(pre, reader, read) == ancestor_of(pre, writer, written),
        bound_in(pre, post, ancestor_of(pre, writer, written).unwrap(), name, value),
    ensures
        value_at(post, reader, read, name) == Some(value),
{
    let a = ancestor_of(pre, writer, written).unwrap();
    lemma_binding_keeps_chains(pre, post, a, name, value, reader, read);
}

/// Binding one name in one frame leaves every other name, and every other
/// frame, as it was.
pub proof fn lemma_assignment_is_local(
    pre: Seq<Environment>,
    post: Seq<Environment>,
    a: usize,
    name: Seq<char>,
    value: Object,
    reader: usize,
    read: nat,
    other: Seq<char>,
)
    requires
        bound_in(pre, post, a, name, value),
        other != name || ancestor_of(pre, reader, read) != Some(a),
    ensures
        value_at(post, reader, read, other) == value_at(pre, reader, read, other),
{
    lemma_binding_keeps_chains(pre, post, a, name, value, reader, read);
    lemma_ancestor_in_range(pre, reader, read);
    match ancestor_of(pre, reader, read) {
        Some(x) => {
            if x != a {
                assert(post[x as int] == pre[x as int]);
            }
        },
        None => {},
    }
}

/// A read at the distance of the nearest binding finds that binding: if the
/// nearest frame around `env` that binds `name` is `d` links out, then reading
/// at distance `d` succeeds, and no frame nearer than `d` binds the name.
pub proof fn lemma_nearest_binding_is_read(
    envs: Seq<Environment>,
    env: usize,
    name: Seq<char>,
    nearer: nat,
)
    requires
        nearest_binding(envs, env, name).is_some(),
    ensures
        value_at(envs, env, nearest_binding(envs, env, name).unwrap(), name).is_some(),
        nearer < nearest_binding(envs, env, name).unwrap() ==> value_at(envs, env, nearer, name)
            .is_none(),
    decreases env,
{
    if !envs[env as int].values@.contains_key(name) {
        let p = envs[env as int].enclosing.unwrap();
        if nearer > 0 {
            lemma_nearest_binding_is_read(envs, p, name, (nearer - 1) as nat);
        } else {
            lemma_nearest_binding_is_read(envs, p, name, 0);
        }
    }
}

/// The first distance at which a read succeeds is the distance of the nearest
/// binding: if reading `name` from `env` succeeds at distance `d` and fails at
/// every smaller distance, then the nearest frame around `env` that binds the
/// name is `d` links out.
pub proof fn lemma_first_read_is_nearest(
    envs: Seq<Environment>,
    env: usize,
    name: Seq<char>,
    d: nat,
)
    requires
        envs_ordered(envs),
        value_at(envs, env, d, name).is_some(),
        forall|k: nat| k < d ==> value_at(envs, env, k, name).is_none(),
    ensures
        nearest_binding(envs, env, name) == Some(d),
    decreases d,
{
    if d > 0 {
        assert(value_at(envs, env, 0, name).is_none());
        let p = envs[env as int].enclosing.unwrap();
        assert forall|k: nat| k < d - 1 implies value_at(envs, p, k, name).is_none() by {
            assert(value_at(envs, env, k + 1, name).is_none());
        }
        lemma_first_read_is_nearest(envs, p, name, (d - 1) as nat);
    }
}

} // verus!
