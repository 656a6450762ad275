//! The store's laws, stated over the replay model that the engine's
//! contracts use: what `set`, `get` and `remove` promise composes to these.
use vstd::prelude::*;

verus! {

use crate::codec::CommandView;
use crate::log::{state_of, lemma_state_push};

/// The record that `set(k, v)` appends.
pub open spec fn put_cmd(k: Seq<char>, v: Seq<char>) -> CommandView {
    CommandView::Put { key: k, value: v }
}

/// The record that `remove(k)` appends.
pub open spec fn remove_cmd(k: Seq<char>) -> CommandView {
    CommandView::Remove { key: k }
}

/// Set-then-get: after a `Set` record for `k` with value `v` is appended,
/// the replay state maps `k` to `v`.
pub proof fn lemma_set_then_get(rs: Seq<CommandView>, k: Seq<char>, v: Seq<char>)
    ensures
        state_of(rs.push(put_cmd(k, v))).contains_key(k),
        state_of(rs.push(put_cmd(k, v)))[k] == v,
{
    lemma_state_push(rs, put_cmd(k, v));
}

/// Overwrite: a second `Set` for the same key wins, and both records stand
/// in the log's record sequence; nothing is rewritten in place.
pub proof fn lemma_overwrite(rs: Seq<CommandView>, k: Seq<char>, v1: Seq<char>, v2: Seq<char>)
    ensures
        state_of(rs.push(put_cmd(k, v1)).push(put_cmd(k, v2))).contains_key(k),
        state_of(rs.push(put_cmd(k, v1)).push(put_cmd(k, v2)))[k] == v2,
        rs.push(put_cmd(k, v1)).push(put_cmd(k, v2)).len() == rs.len() + 2,
        rs.push(put_cmd(k, v1)).push(put_cmd(k, v2))[rs.len() as int] == put_cmd(k, v1),
        rs.push(put_cmd(k, v1)).push(put_cmd(k, v2))[rs.len() as int + 1] == put_cmd(k, v2),
{
    lemma_state_push(rs.push(put_cmd(k, v1)), put_cmd(k, v2));
}

/// Remove clears: after a `Remove` record for `k` is appended, the replay
/// state no longer maps `k`.
pub proof fn lemma_remove_clears(rs: Seq<CommandView>, k: Seq<char>)
    ensures
        !state_of(rs.push(remove_cmd(k))).contains_key(k),
{
    lemma_state_push(rs, remove_cmd(k));
}

} // verus!
