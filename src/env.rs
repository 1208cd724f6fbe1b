//! The binder environment: a stack of display names, one per open binder
//! slot, used to turn de Bruijn depths into names while rendering.

use vstd::prelude::*;

use crate::text::{binder_name, push_binder_name};

verus! {

/// Why a render stopped before producing its text.
#[derive(PartialEq, Eq, Structural, Debug, Clone, Copy)]
pub enum RenderError {
    /// A bound variable at `depth` was met while only `open` binder slots
    /// were open: the formula lets a variable escape its binder.
    OutOfScope { depth: usize, open: usize },
    /// Entering `requested` more slots on top of `open` open ones would pass
    /// the largest stack position that can be counted.
    BinderOverflow { open: usize, requested: usize },
}

/// The names of the first `k` binder slots, outermost first.
pub open spec fn names_upto(k: nat) -> Seq<Seq<char>> {
    Seq::new(k, |i: int| binder_name(i as nat))
}

/// A stack of display names for the currently open binder slots; the last
/// one belongs to the innermost slot (depth 0).
pub struct BinderEnv {
    names: Vec<String>,
}

/// What one `enter` pushed: the slots from `start` on, `count` of them.
/// Handing it back to `exit` pops exactly those slots.
pub struct Scope {
    start: usize,
    count: usize,
}

impl Scope {
    pub closed spec fn spec_start(&self) -> nat {
        self.start as nat
    }

    pub closed spec fn spec_count(&self) -> nat {
        self.count as nat
    }

    /// Number of slots this scope opened.
    pub fn count(&self) -> (r: usize)
        ensures
            r as nat == self.spec_count(),
    {
        self.count
    }
}

impl View for BinderEnv {
    type V = Seq<Seq<char>>;

    closed spec fn view(&self) -> Seq<Seq<char>> {
        self.names@.map_values(|s: String| s@)
    }
}

impl BinderEnv {
    /// The stack holds the names of its slots, position by position.
    pub open spec fn wf(&self) -> bool {
        self@ == names_upto(self@.len())
    }

    /// An environment with no open binder slot.
    pub fn new() -> (r: BinderEnv)
        ensures
            r.wf(),
            r@.len() == 0,
    {
        let r = BinderEnv { names: Vec::new() };
        assert(r@ =~= names_upto(0));
        r
    }

    /// Number of open binder slots.
    pub fn open_count(&self) -> (r: usize)
        ensures
            r as nat == self@.len(),
    {
        self.names.len()
    }

    /// Opens `n` fresh slots, named after their stack positions, and returns
    /// the scope that closes them again.
    pub fn enter(&mut self, n: usize) -> (r: Result<Scope, RenderError>)
        requires
            old(self).wf(),
        ensures
            final(self).wf(),
            old(self)@.len() + n <= usize::MAX ==> {
                &&& r is Ok
                &&& r->Ok_0.spec_start() == old(self)@.len()
                &&& r->Ok_0.spec_count() == n
                &&& final(self)@.len() == old(self)@.len() + n
            },
            old(self)@.len() + n > usize::MAX ==> {
                &&& r == Err::<Scope, RenderError>(
                    RenderError::BinderOverflow { open: old(self)@.len() as usize, requested: n },
                )
                &&& final(self)@ == old(self)@
            },
    {
        let start = self.names.len();
        if n > usize::MAX - start {
            return Err(RenderError::BinderOverflow { open: start, requested: n });
        }
        let mut i: usize = 0;
        while i < n
            invariant
                i <= n,
                start + n <= usize::MAX,
                self.names@.len() == start + i,
                self.wf(),
            decreases n - i,
        {
            let ghost prev = self.names@;
            let mut name = String::new();
            push_binder_name(&mut name, start + i);
            self.names.push(name);
            proof {
                assert forall|k: int| 0 <= k < self@.len() implies self@[k] == names_upto(
                    self@.len(),
                )[k] by {
                    if k < prev.len() {
                        assert(self.names@[k] == prev[k]);
                        assert(prev.map_values(|s: String| s@)[k] == names_upto(prev.len())[k]);
                    }
                }
                assert(self@ =~= names_upto(self@.len()));
            }
            i = i + 1;
        }
        Ok(Scope { start, count: n })
    }

    /// The name of the slot at `depth` (0 = innermost), or `OutOfScope` when
    /// fewer than `depth + 1` slots are open.
    pub fn resolve(&self, depth: usize) -> (r: Result<&String, RenderError>)
        requires
            self.wf(),
        ensures
            depth < self@.len() ==> r is Ok && r->Ok_0@ == binder_name(
                (self@.len() - 1 - depth) as nat,
            ),
            depth >= self@.len() ==> r == Err::<&String, RenderError>(
                RenderError::OutOfScope { depth, open: self@.len() as usize },
            ),
    {
        let open = self.names.len();
        if depth < open {
            let r = &self.names[open - 1 - depth];
            assert(r@ == self@[open - 1 - depth]);
            Ok(r)
        } else {
            Err(RenderError::OutOfScope { depth, open })
        }
    }

    /// Closes the slots that `scope` opened, restoring the stack as it was
    /// before the matching `enter`.
    pub fn exit(&mut self, scope: Scope)
        requires
            old(self).wf(),
            old(self)@.len() == scope.spec_start() + scope.spec_count(),
        ensures
            final(self).wf(),
            final(self)@.len() == scope.spec_start(),
    {
        let ghost prev = self.names@;
        self.names.truncate(scope.start);
        proof {
            assert forall|k: int| 0 <= k < self@.len() implies self@[k] == names_upto(
                self@.len(),
            )[k] by {
                assert(self.names@[k] == prev[k]);
                assert(prev.map_values(|s: String| s@)[k] == names_upto(prev.len())[k]);
            }
            assert(self@ =~= names_upto(self@.len()));
        }
    }
}

} // verus!
