//! Execution traces: the meaningful steps of a run, each stamped with the
//! op-clock, the call depth and the source line.

use vstd::prelude::*;

use crate::host::Host;
use crate::text::push_str;
use crate::value::{Value, detached, joined, printed, render, same_value};

verus! {

/// One recorded step of execution. `op` is the operations-clock value at the
/// moment it happened — the reproducible timeline position — and `depth` is
/// the call depth, for indentation and call-tree reconstruction.
#[derive(Debug, Clone)]
pub struct TraceEvent {
    pub op: u64,
    pub depth: usize,
    /// 1-based source line the event came from — for editor highlighting.
    pub line: usize,
    pub kind: EventKind,
}

/// What a trace event records. The trace captures state changes and control
/// flow — assignments, calls, returns, branch decisions, the values of
/// expression statements — not every node, so it stays legible.
#[derive(Debug, Clone)]
pub enum EventKind {
    /// A variable, array element or map entry was bound or updated.
    Assign { target: String, value: Value },
    /// A user function was entered.
    Call { name: String, args: Vec<Value> },
    /// A user function returned.
    Return { name: String, value: Value },
    /// An `if` or `while` condition was evaluated (`construct` is which one).
    Branch { construct: &'static str, value: bool },
    /// An expression statement produced a value.
    Expr { value: Value },
}

impl EventKind {
    /// How the event reads in a printed trace: `x = 5`, `call f(1, 2)`,
    /// `return f → 3`, `while → true`, or the value of an expression
    /// statement.
    pub fn describe<H: Host>(&self, host: &H) -> (s: String)
        ensures
            match *self {
                EventKind::Branch { construct, value } => s@ == construct@ + " → "@ + (if value {
                    "true"@
                } else {
                    "false"@
                }),
                EventKind::Assign { target, value } => s@ == target@ + " = "@ + printed::<H>(value),
                EventKind::Call { name, args } => s@ == "call "@ + name@ + "("@ + joined(
                    Seq::new(args@.len(), |i: int| printed::<H>(args@[i])),
                    ", "@,
                ) + ")"@,
                EventKind::Return { name, value } => s@ == "return "@ + name@ + " → "@ + printed::<H>(
                    value,
                ),
                EventKind::Expr { value } => s@ == printed::<H>(value),
            },
    {
        match self {
            EventKind::Assign { target, value } => {
                let mut s = target.clone();
                push_str(&mut s, " = ");
                let shown = render(host, value);
                let ghost head = s@;
                push_str(&mut s, shown.as_str());
                s
            },
            EventKind::Call { name, args } => {
                let mut s = "call ".to_owned();
                push_str(&mut s, name.as_str());
                push_str(&mut s, "(");
                let ghost head = s@;
                let ghost mut parts: Seq<Seq<char>> = Seq::empty();
                let mut i: usize = 0;
                while i < args.len()
                    invariant
                        i <= args@.len(),
                        parts.len() == i,
                        s@ == head + joined(parts, ", "@),
                        forall|j: int| 0 <= j < i ==> #[trigger] parts[j] == printed::<H>(args@[j]),
                    decreases args@.len() - i,
                {
                    if i > 0 {
                        push_str(&mut s, ", ");
                    }
                    let shown = render(host, &args[i]);
                    push_str(&mut s, shown.as_str());
                    proof {
                        let next = parts.push(shown@);
                        assert(next.drop_last() =~= parts);
                        assert(s@ =~= head + joined(next, ", "@));
                        parts = next;
                    }
                    i = i + 1;
                }
                push_str(&mut s, ")");
                assert(parts =~= Seq::new(args@.len(), |j: int| printed::<H>(args@[j])));
                assert(s@ =~= "call "@ + name@ + "("@ + joined(parts, ", "@) + ")"@);
                s
            },
            EventKind::Return { name, value } => {
                let mut s = "return ".to_owned();
                push_str(&mut s, name.as_str());
                push_str(&mut s, " → ");
                let ghost head = s@;
                let shown = render(host, value);
                push_str(&mut s, shown.as_str());
                s
            },
            EventKind::Branch { construct, value } => {
                let mut s = (*construct).to_owned();
                push_str(&mut s, " → ");
                if *value {
                    push_str(&mut s, "true");
                } else {
                    push_str(&mut s, "false");
                }
                s
            },
            EventKind::Expr { value } => render(host, value),
        }
    }
}

/// `a` records what `b` records, its values held in storage of their own
/// (see `same_value`).
pub open spec fn same_event(a: EventKind, b: EventKind) -> bool {
    match (a, b) {
        (EventKind::Assign { target: t1, value: v1 }, EventKind::Assign { target: t2, value: v2 }) =>
            t1 == t2 && same_value(v1, v2),
        (EventKind::Call { name: n1, args: a1 }, EventKind::Call { name: n2, args: a2 }) => n1 == n2
            && a1@.len() == a2@.len() && forall|i: int|
            0 <= i < a1@.len() ==> same_value(#[trigger] a1@[i], a2@[i]),
        (EventKind::Return { name: n1, value: v1 }, EventKind::Return { name: n2, value: v2 }) =>
            n1 == n2 && same_value(v1, v2),
        (EventKind::Expr { value: v1 }, EventKind::Expr { value: v2 }) => same_value(v1, v2),
        _ => a == b,
    }
}

/// The event `kind`, its values copied into storage of their own, so that
/// the trace shares no array or map with the running program.
pub fn detach_event(kind: EventKind) -> (r: EventKind)
    ensures
        same_event(r, kind),
{
    match kind {
        EventKind::Assign { target, value } => EventKind::Assign { target, value: detached(&value) },
        EventKind::Call { name, args } => {
            let mut out: Vec<Value> = Vec::new();
            let mut i: usize = 0;
            while i < args.len()
                invariant
                    i <= args@.len(),
                    out@.len() == i,
                    forall|j: int| 0 <= j < i ==> same_value(#[trigger] out@[j], args@[j]),
                decreases args@.len() - i,
            {
                out.push(detached(&args[i]));
                i = i + 1;
            }
            EventKind::Call { name, args: out }
        },
        EventKind::Return { name, value } => EventKind::Return { name, value: detached(&value) },
        EventKind::Expr { value } => EventKind::Expr { value: detached(&value) },
        EventKind::Branch { construct, value } => EventKind::Branch { construct, value },
    }
}

/// The stamps of a trace never go back in time: ops are non-decreasing.
pub open spec fn ops_ordered(t: Seq<TraceEvent>) -> bool {
    forall|i: int, j: int| 0 <= i <= j < t.len() ==> (#[trigger] t[i]).op <= (#[trigger] t[j]).op
}

} // verus!
