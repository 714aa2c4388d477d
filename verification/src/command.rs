//! A single command: its display name, category, the action it stands for,
//! an optional keybinding, and the handler run when it is executed.

use vstd::prelude::*;
use vstd::string::StringExecFns;

verus! {

/// The identity of the action a command wraps: the action's name and a key
/// that tells action types apart (two actions of one type share the key).
pub struct ActionId {
    pub name: String,
    pub type_key: u64,
}

impl ActionId {
    /// An action identity made of a name and a type key.
    pub fn new(name: &str, type_key: u64) -> (r: Self)
        ensures
            r.name@ == name@,
            r.type_key == type_key,
    {
        ActionId { name: String::from_str(name), type_key }
    }

    /// The action's name.
    pub fn name(&self) -> (r: &str)
        ensures
            r@ == self.name@,
    {
        self.name.as_str()
    }
}

/// A single command: its display name, category, underlying action,
/// optional keybinding, and the handler invoked when it is executed.
pub struct Command<H> {
    name: String,
    action: ActionId,
    category: String,
    keybinding: Option<String>,
    handler: Option<H>,
}

/// The category of a command that was given none.
pub open spec fn default_category() -> Seq<char> {
    seq!['G', 'e', 'n', 'e', 'r', 'a', 'l']
}

impl<H> Command<H> {
    /// The display name shown in the palette.
    pub closed spec fn name_view(&self) -> Seq<char> {
        self.name@
    }

    /// The action this command wraps.
    pub closed spec fn action_view(&self) -> ActionId {
        self.action
    }

    /// The category this command is grouped under.
    pub closed spec fn category_view(&self) -> Seq<char> {
        self.category@
    }

    /// The recorded keybinding, if any.
    pub closed spec fn keybinding_view(&self) -> Option<Seq<char>> {
        match self.keybinding {
            Some(binding) => Some(binding@),
            None => None,
        }
    }

    /// The handler, if one was set.
    pub closed spec fn handler_view(&self) -> Option<H> {
        self.handler
    }

    /// Start building a command. `name` is what appears in the palette;
    /// `action` is the action this command wraps. The category starts as
    /// "General", with no keybinding and no handler.
    pub fn new(name: &str, action: ActionId) -> (r: Self)
        ensures
            r.name_view() == name@,
            r.action_view() == action,
            r.category_view() == default_category(),
            r.keybinding_view() is None,
            r.handler_view() is None,
    {
        let category = String::from_str("General");
        proof {
            reveal_strlit("General");
            assert(category@ =~= default_category());
        }
        Command { name: String::from_str(name), action, category, keybinding: None, handler: None }
    }

    /// Set the category this command is grouped under in the palette.
    pub fn category(self, category: &str) -> (r: Self)
        ensures
            r.category_view() == category@,
            r.name_view() == self.name_view(),
            r.action_view() == self.action_view(),
            r.keybinding_view() == self.keybinding_view(),
            r.handler_view() == self.handler_view(),
    {
        let mut command = self;
        command.category = String::from_str(category);
        command
    }

    /// Record a keybinding for this command, e.g. `"cmd-s"`.
    pub fn keybinding(self, binding: &str) -> (r: Self)
        ensures
            r.keybinding_view() == Some(binding@),
            r.name_view() == self.name_view(),
            r.action_view() == self.action_view(),
            r.category_view() == self.category_view(),
            r.handler_view() == self.handler_view(),
    {
        let mut command = self;
        command.keybinding = Some(String::from_str(binding));
        command
    }

    /// Set the handler invoked when this command is executed.
    pub fn handler(self, f: H) -> (r: Self)
        ensures
            r.handler_view() == Some(f),
            r.name_view() == self.name_view(),
            r.action_view() == self.action_view(),
            r.category_view() == self.category_view(),
            r.keybinding_view() == self.keybinding_view(),
    {
        let mut command = self;
        command.handler = Some(f);
        command
    }

    /// The display name shown in the palette.
    pub fn name(&self) -> (r: &str)
        ensures
            r@ == self.name_view(),
    {
        self.name.as_str()
    }

    /// The category this command is grouped under.
    pub fn category_name(&self) -> (r: &str)
        ensures
            r@ == self.category_view(),
    {
        self.category.as_str()
    }

    /// The bound keybinding, if any.
    pub fn binding(&self) -> (r: Option<&str>)
        ensures
            match r {
                Some(b) => self.keybinding_view() == Some(b@),
                None => self.keybinding_view() is None,
            },
    {
        match &self.keybinding {
            Some(binding) => Some(binding.as_str()),
            None => None,
        }
    }

    /// The underlying action.
    pub fn action(&self) -> (r: &ActionId)
        ensures
            *r == self.action_view(),
    {
        &self.action
    }

    /// Whether a handler was set.
    pub fn has_handler(&self) -> (r: bool)
        ensures
            r == self.handler_view() is Some,
    {
        self.handler.is_some()
    }

    /// The handler to run when this command is executed, if one was set.
    pub fn handler_ref(&self) -> (r: Option<&H>)
        ensures
            match r {
                Some(f) => self.handler_view() == Some(*f),
                None => self.handler_view() is None,
            },
    {
        match &self.handler {
            Some(f) => Some(f),
            None => None,
        }
    }
}

} // verus!
