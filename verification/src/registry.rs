//! The registry: the single source of truth for every command an app
//! supports, in registration order, with at most one command per action type.

use std::collections::HashMap;
use vstd::prelude::*;

use crate::command::Command;

verus! {

broadcast use vstd::std_specs::hash::group_hash_axioms;

/// The single source of truth for every command an app supports.
pub struct CommandRegistry<H> {
    commands: Vec<Command<H>>,
    by_action_type: HashMap<u64, ()>,
}

impl<H> View for CommandRegistry<H> {
    type V = Seq<Command<H>>;

    /// The registered commands, in registration order.
    closed spec fn view(&self) -> Seq<Command<H>> {
        self.commands@
    }
}

impl<H> CommandRegistry<H> {
    /// Some registered command wraps an action with the type key `type_key`.
    pub open spec fn registers(&self, type_key: u64) -> bool {
        exists|i: int| 0 <= i < self@.len() && #[trigger] self@[i].action_view().type_key == type_key
    }

    /// The registry's invariant: the action types it has seen are exactly
    /// those of its commands, no two commands share an action type, and
    /// every command has a handler.
    pub closed spec fn wf(&self) -> bool {
        &&& forall|k: u64|
            #![trigger self.by_action_type@.contains_key(k)]
            self.by_action_type@.contains_key(k) <==> self.registers(k)
        &&& forall|i: int, j: int|
            0 <= i < j < self.commands@.len() ==> #[trigger] self.commands@[i].action_view().type_key
                != #[trigger] self.commands@[j].action_view().type_key
        &&& forall|i: int|
            0 <= i < self.commands@.len() ==> (#[trigger] self.commands@[i]).handler_view() is Some
    }

    /// Create an empty registry.
    pub fn new() -> (r: Self)
        ensures
            r.wf(),
            r@ == Seq::<Command<H>>::empty(),
    {
        let r = CommandRegistry { commands: Vec::new(), by_action_type: HashMap::new() };
        proof {
            assert(r.by_action_type@ =~= Map::<u64, ()>::empty());
        }
        r
    }

    /// Register a command. The command must have a handler, and no command
    /// for the same action type may be registered already.
    pub fn register(&mut self, command: Command<H>)
        requires
            old(self).wf(),
            command.handler_view() is Some,
            !old(self).registers(command.action_view().type_key),
        ensures
            final(self).wf(),
            final(self)@ == old(self)@.push(command),
    {
        let type_key = command.action().type_key;
        let ghost old_commands = self.commands@;
        self.by_action_type.insert(type_key, ());
        self.commands.push(command);
        proof {
            assert(self.by_action_type@ == old(self).by_action_type@.insert(type_key, ()));
            assert(self.commands@ == old_commands.push(command));
            assert(type_key == command.action_view().type_key);
            assert forall|k: u64| #![trigger self.by_action_type@.contains_key(k)]
                self.by_action_type@.contains_key(k) <==> self.registers(k) by {
                assert(old(self).by_action_type@.contains_key(k) <==> old(self).registers(k));
                if old(self).registers(k) {
                    let i = choose|i: int|
                        0 <= i < old(self)@.len() && #[trigger] old(self)@[i].action_view().type_key
                            == k;
                    assert(self@[i] == old(self)@[i]);
                }
                if k == type_key {
                    assert(self@[old_commands.len() as int].action_view().type_key == k);
                }
                if self.registers(k) && k != type_key {
                    let i = choose|i: int|
                        0 <= i < self@.len() && #[trigger] self@[i].action_view().type_key == k;
                    assert(i < old_commands.len());
                    assert(old(self)@[i] == self@[i]);
                }
            }
            assert forall|i: int, j: int|
                0 <= i < j < self.commands@.len() implies #[trigger] self.commands@[i].action_view().type_key
                != #[trigger] self.commands@[j].action_view().type_key by {
                assert(self.commands@[i] == old(self).commands@[i]);
                if j == old_commands.len() {
                    assert(old(self)@[i].action_view().type_key != type_key);
                } else {
                    assert(self.commands@[j] == old(self).commands@[j]);
                }
            }
            assert forall|i: int| 0 <= i < self.commands@.len() implies (
            #[trigger] self.commands@[i]).handler_view() is Some by {
                if i < old_commands.len() {
                    assert(self.commands@[i] == old(self).commands@[i]);
                }
            }
        }
    }

    /// Whether a command for the action type `type_key` is registered.
    pub fn is_registered(&self, type_key: u64) -> (r: bool)
        requires
            self.wf(),
        ensures
            r == self.registers(type_key),
    {
        self.by_action_type.contains_key(&type_key)
    }

    /// All registered commands, in registration order.
    pub fn commands(&self) -> (r: &[Command<H>])
        ensures
            r@ == self@,
    {
        self.commands.as_slice()
    }

    /// All registered commands that record a keybinding, by index, in
    /// registration order.
    pub fn bound_commands(&self) -> (r: Vec<usize>)
        ensures
            forall|k: int| 0 <= k < r@.len() ==> #[trigger] r@[k] < self@.len() && self@[r@[k] as int].keybinding_view() is Some,
            forall|i: int| 0 <= i < self@.len() && (#[trigger] self@[i]).keybinding_view() is Some ==> r@.contains(i as usize),
            forall|a: int, b: int| 0 <= a < b < r@.len() ==> #[trigger] r@[a] < #[trigger] r@[b],
    {
        let mut r: Vec<usize> = Vec::new();
        let mut i: usize = 0;
        while i < self.commands.len()
            invariant
                i <= self.commands@.len(),
                forall|k: int| 0 <= k < r@.len() ==> #[trigger] r@[k] < i && self@[r@[k] as int].keybinding_view() is Some,
                forall|j: int| 0 <= j < i && (#[trigger] self@[j]).keybinding_view() is Some ==> r@.contains(j as usize),
                forall|a: int, b: int| 0 <= a < b < r@.len() ==> #[trigger] r@[a] < #[trigger] r@[b],
            decreases self.commands@.len() - i,
        {
            if self.commands[i].binding().is_some() {
                let ghost before = r@;
                r.push(i);
                proof {
                    assert forall|j: int| 0 <= j < i + 1 && (#[trigger] self@[j]).keybinding_view() is Some implies r@.contains(j as usize) by {
                        if j == i {
                            assert(r@[before.len() as int] == i);
                        } else {
                            assert(before.contains(j as usize));
                            let k = choose|k: int| 0 <= k < before.len() && before[k] == j as usize;
                            assert(r@[k] == before[k]);
                        }
                    }
                }
            }
            i += 1;
        }
        r
    }

    /// No two registered commands wrap actions of the same type.
    pub proof fn lemma_action_types_distinct(&self)
        requires
            self.wf(),
        ensures
            forall|i: int, j: int|
                0 <= i < self@.len() && 0 <= j < self@.len() && i != j ==> #[trigger] self@[i].action_view().type_key
                    != #[trigger] self@[j].action_view().type_key,
    {
        assert forall|i: int, j: int|
            0 <= i < self@.len() && 0 <= j < self@.len() && i != j implies #[trigger] self@[i].action_view().type_key
            != #[trigger] self@[j].action_view().type_key by {
            if i < j {
            } else {
                assert(self.commands@[j].action_view().type_key != self.commands@[i].action_view().type_key);
            }
        }
    }

    /// Every registered command has a handler.
    pub proof fn lemma_handlers_present(&self)
        requires
            self.wf(),
        ensures
            forall|i: int| 0 <= i < self@.len() ==> (#[trigger] self@[i]).handler_view() is Some,
    {
    }
}

/// Registering `commands` one after another, starting from an empty
/// registry, leaves exactly those commands, in that order: `states[k]` is
/// the registry's view after the first `k` registrations.
pub proof fn lemma_registration_order<H>(states: Seq<Seq<Command<H>>>, commands: Seq<Command<H>>)
    requires
        states.len() == commands.len() + 1,
        states[0] == Seq::<Command<H>>::empty(),
        forall|k: int| 0 <= k < commands.len() ==> #[trigger] states[k + 1] == states[k].push(commands[k]),
    ensures
        states[commands.len() as int] == commands,
    decreases commands.len(),
{
    if commands.len() > 0 {
        let n = commands.len() - 1;
        let shorter = commands.drop_last();
        let earlier = states.drop_last();
        assert forall|k: int| 0 <= k < shorter.len() implies #[trigger] earlier[k + 1] == earlier[k].push(
            shorter[k],
        ) by {
            assert(states[k + 1] == states[k].push(commands[k]));
        }
        lemma_registration_order(earlier, shorter);
        assert(states[n + 1] == states[n].push(commands[n]));
        assert(commands =~= shorter.push(commands[n]));
    }
}

impl<H> Default for CommandRegistry<H> {
    /// An empty registry.
    fn default() -> (r: Self)
        ensures
            r.wf(),
            r@ == Seq::<Command<H>>::empty(),
    {
        Self::new()
    }
}

} // verus!
