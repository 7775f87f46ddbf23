//! Extensions and their actions, as declared by the program that hosts them.

use vstd::prelude::*;
use crate::combination::{KeyCombination, KeyView};
use crate::json::{json_quoted, json_string};

verus! {

/// One named action of an extension. `H` is what runs it: a callback, or
/// anything the host knows how to invoke.
pub struct ShortcutHandler<H> {
    pub name: String,
    pub description: String,
    pub handle: H,
    pub default_shortcut: Option<KeyCombination>,
}

pub struct ActionView {
    pub name: Seq<char>,
    pub description: Seq<char>,
    pub default: Option<KeyView>,
}

impl<H> View for ShortcutHandler<H> {
    type V = ActionView;

    open spec fn view(&self) -> ActionView {
        ActionView {
            name: self.name@,
            description: self.description@,
            default: match self.default_shortcut {
                Some(k) => Some(k@),
                None => None,
            },
        }
    }
}

/// The JSON object `{"description": ..., "name": ...}` describing an action.
pub open spec fn action_json(a: ActionView) -> Seq<char> {
    "{\"description\":"@ + json_string(a.description) + ",\"name\":"@ + json_string(a.name) + "}"@
}

impl<H> ShortcutHandler<H> {
    /// An action without a default key combination.
    pub fn new(name: String, description: String, handle: H) -> (r: ShortcutHandler<H>)
        ensures
            r@ == (ActionView { name: name@, description: description@, default: None }),
            r.handle == handle,
    {
        ShortcutHandler { name, description, handle, default_shortcut: None }
    }

    /// An action with a default key combination.
    pub fn with_default(name: String, description: String, handle: H, default_shortcut: KeyCombination) -> (r:
        ShortcutHandler<H>)
        ensures
            r@ == (ActionView {
                name: name@,
                description: description@,
                default: Some(default_shortcut@),
            }),
            r.handle == handle,
    {
        ShortcutHandler { name, description, handle, default_shortcut: Some(default_shortcut) }
    }

    /// What runs the action.
    pub fn handle(&self) -> (r: &H)
        ensures
            *r == self.handle,
    {
        &self.handle
    }

    pub fn name(&self) -> (r: String)
        ensures
            r@ == self.name@,
    {
        self.name.clone()
    }

    pub fn description(&self) -> (r: String)
        ensures
            r@ == self.description@,
    {
        self.description.clone()
    }

    /// The name and description as a JSON object.
    pub fn to_string(&self) -> (r: String)
        ensures
            r@ == action_json(self@),
    {
        let mut t = String::new();
        t.append("{\"description\":");
        let d = json_quoted(self.description.as_str());
        t.append(d.as_str());
        t.append(",\"name\":");
        let n = json_quoted(self.name.as_str());
        t.append(n.as_str());
        t.append("}");
        proof {
            assert(t@ =~= action_json(self@));
        }
        t
    }
}

/// A named bundle of actions.
pub struct Extension<H> {
    pub name: String,
    pub description: String,
    pub shortcuts: Vec<ShortcutHandler<H>>,
}

pub struct ExtensionView {
    pub name: Seq<char>,
    pub description: Seq<char>,
    pub actions: Seq<ActionView>,
}

impl<H> View for Extension<H> {
    type V = ExtensionView;

    open spec fn view(&self) -> ExtensionView {
        ExtensionView {
            name: self.name@,
            description: self.description@,
            actions: self.shortcuts@.map_values(|a: ShortcutHandler<H>| a@),
        }
    }
}

pub open spec fn extensions_view<H>(v: Seq<Extension<H>>) -> Seq<ExtensionView> {
    v.map_values(|e: Extension<H>| e@)
}

} // verus!
