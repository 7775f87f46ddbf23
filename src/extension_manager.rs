//! The extension manager: the registry of extensions, the cache, an index of
//! handlers and an index from key combination to handler.

use vstd::prelude::*;
use crate::cache_manager::{
    last_record_in, record_of, shortcuts_view, CacheExtension, CacheManager, CacheShortcut, RecordView, ShortcutView,
    StoredCache,
};
use crate::combination::{canonical_text, KeyCombination, KeyView};
use crate::extension::{extensions_view, ActionView, Extension, ExtensionView, ShortcutHandler};
use crate::json::{
    append_bool, append_item, close_array, json_array, json_bool, json_quoted, json_string,
    joined,
};

verus! {

/// Position of an action in the registry: extension, then action within it.
#[derive(Clone, Copy, Debug, PartialEq, Eq, Structural)]
pub struct HandlerRef {
    pub extension: usize,
    pub action: usize,
}

/// The first override for action `name`.
pub open spec fn override_in(ss: Seq<ShortcutView>, name: Seq<char>) -> Option<KeyView>
    decreases ss.len(),
{
    if ss.len() == 0 {
        None
    } else if ss[0].name == name {
        Some(ss[0].combination)
    } else {
        override_in(ss.drop_first(), name)
    }
}

/// The combination in effect for an action: its override, else its default.
pub open spec fn effective(overrides: Seq<ShortcutView>, a: ActionView) -> Option<KeyView> {
    match override_in(overrides, a.name) {
        Some(k) => Some(k),
        None => a.default,
    }
}

/// Every action of the registry, extension by extension, in declaration order.
pub open spec fn handler_entries(regs: Seq<ExtensionView>) -> Seq<HandlerRef>
    decreases regs.len(),
{
    if regs.len() == 0 {
        Seq::empty()
    } else {
        handler_entries(regs.drop_last()) + Seq::new(
            regs.last().actions.len(),
            |a: int| HandlerRef { extension: (regs.len() - 1) as usize, action: a as usize },
        )
    }
}

pub open spec fn action_at(regs: Seq<ExtensionView>, h: HandlerRef) -> ActionView {
    regs[h.extension as int].actions[h.action as int]
}

/// The last handler of the index for action `an` of an extension named `en`.
pub open spec fn handler_lookup(regs: Seq<ExtensionView>, hs: Seq<HandlerRef>, en: Seq<char>, an: Seq<
    char,
>) -> Option<HandlerRef>
    decreases hs.len(),
{
    if hs.len() == 0 {
        None
    } else if regs[hs.last().extension as int].name == en && action_at(regs, hs.last()).name == an {
        Some(hs.last())
    } else {
        handler_lookup(regs, hs.drop_last(), en, an)
    }
}

/// The defaults bound for record `r`: each handler of its extension whose
/// action the record does not override and that has a default, in index order.
pub open spec fn default_bindings(r: RecordView, regs: Seq<ExtensionView>, hs: Seq<HandlerRef>) -> Seq<
    (KeyView, HandlerRef),
>
    decreases hs.len(),
{
    if hs.len() == 0 {
        Seq::empty()
    } else {
        let prev = default_bindings(r, regs, hs.drop_last());
        let h = hs.last();
        let act = action_at(regs, h);
        if regs[h.extension as int].name == r.name && override_in(r.shortcuts, act.name) is None
            && act.default is Some {
            prev.push((act.default->0, h))
        } else {
            prev
        }
    }
}

/// The overrides `ss` of a record named `en` that name a registered action, in record order.
pub open spec fn override_bindings(
    en: Seq<char>,
    regs: Seq<ExtensionView>,
    hs: Seq<HandlerRef>,
    ss: Seq<ShortcutView>,
) -> Seq<(KeyView, HandlerRef)>
    decreases ss.len(),
{
    if ss.len() == 0 {
        Seq::empty()
    } else {
        let prev = override_bindings(en, regs, hs, ss.drop_last());
        match handler_lookup(regs, hs, en, ss.last().name) {
            Some(h) => prev.push((ss.last().combination, h)),
            None => prev,
        }
    }
}

/// The bindings that one enabled record contributes: first the defaults of
/// the actions it leaves alone, then its overrides in the order it holds them.
pub open spec fn record_bindings(r: RecordView, regs: Seq<ExtensionView>, hs: Seq<HandlerRef>) -> Seq<
    (KeyView, HandlerRef),
> {
    default_bindings(r, regs, hs) + override_bindings(r.name, regs, hs, r.shortcuts)
}

/// Whether record `r` binds `k` to action `act`: through one of its
/// overrides for the action, or through the action's default when it
/// overrides nothing of that name.
pub open spec fn binds(r: RecordView, act: ActionView, k: KeyView) -> bool {
    (override_in(r.shortcuts, act.name) is None && act.default == Some(k)) || exists|j: int|
        0 <= j < r.shortcuts.len() && #[trigger] r.shortcuts[j].name == act.name
            && r.shortcuts[j].combination == k
}

/// The dispatch bindings in the order they are built: enabled records in
/// cache order, each contributing its record bindings.
pub open spec fn bindings(rs: Seq<RecordView>, regs: Seq<ExtensionView>, hs: Seq<HandlerRef>) -> Seq<
    (KeyView, HandlerRef),
>
    decreases rs.len(),
{
    if rs.len() == 0 {
        Seq::empty()
    } else {
        bindings(rs.drop_last(), regs, hs) + if rs.last().enabled {
            record_bindings(rs.last(), regs, hs)
        } else {
            Seq::empty()
        }
    }
}

/// The handler bound to `k`: the last binding built for it wins.
pub open spec fn last_binding(bs: Seq<(KeyView, HandlerRef)>, k: KeyView) -> Option<HandlerRef>
    decreases bs.len(),
{
    if bs.len() == 0 {
        None
    } else if bs.last().0 == k {
        Some(bs.last().1)
    } else {
        last_binding(bs.drop_last(), k)
    }
}

pub open spec fn refs_in(regs: Seq<ExtensionView>, h: HandlerRef) -> bool {
    h.extension < regs.len() && h.action < regs[h.extension as int].actions.len()
}

/// The overrides that apply to extension `name` when rendering.
pub open spec fn rendered_overrides(rs: Seq<RecordView>, name: Seq<char>) -> Seq<ShortcutView> {
    match record_of(rs, name) {
        Some(i) => rs[i].shortcuts,
        None => Seq::empty(),
    }
}

pub open spec fn rendered_enabled(rs: Seq<RecordView>, name: Seq<char>) -> bool {
    match record_of(rs, name) {
        Some(i) => rs[i].enabled,
        None => false,
    }
}

/// Every action has an override or a default.
pub open spec fn renderable(rs: Seq<RecordView>, regs: Seq<ExtensionView>) -> bool {
    forall|i: int, j: int|
        0 <= i < regs.len() && 0 <= j < regs[i].actions.len() ==> effective(
            rendered_overrides(rs, regs[i].name),
            #[trigger] regs[i].actions[j],
        ) is Some
}

pub struct ActionSnapshotView {
    pub name: Seq<char>,
    pub description: Seq<char>,
    pub shortcut: Seq<char>,
}

pub struct ExtensionSnapshotView {
    pub name: Seq<char>,
    pub description: Seq<char>,
    pub enabled: bool,
    pub shortcuts: Seq<ActionSnapshotView>,
}

pub open spec fn render_action(overrides: Seq<ShortcutView>, a: ActionView) -> ActionSnapshotView {
    ActionSnapshotView {
        name: a.name,
        description: a.description,
        shortcut: canonical_text(effective(overrides, a)->0),
    }
}

pub open spec fn render_actions(overrides: Seq<ShortcutView>, actions: Seq<ActionView>) -> Seq<
    ActionSnapshotView,
> {
    actions.map_values(|a: ActionView| render_action(overrides, a))
}

pub open spec fn render_extension(rs: Seq<RecordView>, e: ExtensionView) -> ExtensionSnapshotView {
    ExtensionSnapshotView {
        name: e.name,
        description: e.description,
        enabled: rendered_enabled(rs, e.name),
        shortcuts: render_actions(rendered_overrides(rs, e.name), e.actions),
    }
}

/// The snapshot: one entry per registered extension, in registration order.
pub open spec fn render(rs: Seq<RecordView>, regs: Seq<ExtensionView>) -> Seq<ExtensionSnapshotView> {
    regs.map_values(|e: ExtensionView| render_extension(rs, e))
}

pub open spec fn action_snapshot_json(a: ActionSnapshotView) -> Seq<char> {
    "{\"description\":"@ + json_string(a.description) + ",\"name\":"@ + json_string(a.name)
        + ",\"shortcut\":"@ + json_string(a.shortcut) + "}"@
}

pub open spec fn extension_snapshot_json(e: ExtensionSnapshotView) -> Seq<char> {
    "{\"description\":"@ + json_string(e.description) + ",\"enabled\":"@ + json_bool(e.enabled)
        + ",\"name\":"@ + json_string(e.name) + ",\"shortcuts\":"@ + json_array(
        e.shortcuts.map_values(|a: ActionSnapshotView| action_snapshot_json(a)),
    ) + "}"@
}

pub open spec fn snapshot_json(v: Seq<ExtensionSnapshotView>) -> Seq<char> {
    json_array(v.map_values(|e: ExtensionSnapshotView| extension_snapshot_json(e)))
}

/// One action as the UI shows it.
#[derive(Clone, Debug, PartialEq, Eq)]
pub struct ActionSnapshot {
    pub name: String,
    pub description: String,
    pub shortcut: String,
}

impl View for ActionSnapshot {
    type V = ActionSnapshotView;

    open spec fn view(&self) -> ActionSnapshotView {
        ActionSnapshotView {
            name: self.name@,
            description: self.description@,
            shortcut: self.shortcut@,
        }
    }
}

/// One extension as the UI shows it.
#[derive(Clone, Debug, PartialEq, Eq)]
pub struct ExtensionSnapshot {
    pub name: String,
    pub description: String,
    pub enabled: bool,
    pub shortcuts: Vec<ActionSnapshot>,
}

impl View for ExtensionSnapshot {
    type V = ExtensionSnapshotView;

    open spec fn view(&self) -> ExtensionSnapshotView {
        ExtensionSnapshotView {
            name: self.name@,
            description: self.description@,
            enabled: self.enabled,
            shortcuts: action_snapshots_view(self.shortcuts@),
        }
    }
}

pub open spec fn action_snapshots_view(v: Seq<ActionSnapshot>) -> Seq<ActionSnapshotView> {
    v.map_values(|a: ActionSnapshot| a@)
}

pub open spec fn snapshots_view(v: Seq<ExtensionSnapshot>) -> Seq<ExtensionSnapshotView> {
    v.map_values(|e: ExtensionSnapshot| e@)
}

/// An action that has neither an override nor a default combination.
#[derive(Clone, Debug, PartialEq, Eq)]
pub enum SnapshotError {
    MissingDefaultCombination { extension: String, action: String },
}

/// The first override in `ss` for the action named `name`.
fn find_override(ss: &Vec<CacheShortcut>, name: &String) -> (r: Option<KeyCombination>)
    ensures
        match r {
            Some(k) => override_in(shortcuts_view(ss@), name@) == Some(k@),
            None => override_in(shortcuts_view(ss@), name@) is None,
        },
{
    let ghost all = shortcuts_view(ss@);
    proof {
        assert(all.subrange(0, all.len() as int) =~= all);
    }
    let mut i: usize = 0;
    while i < ss.len()
        invariant
            i <= ss.len(),
            all == shortcuts_view(ss@),
            override_in(all, name@) == override_in(all.subrange(i as int, all.len() as int), name@),
        decreases ss.len() - i,
    {
        proof {
            let rest = all.subrange(i as int, all.len() as int);
            assert(rest.drop_first() =~= all.subrange(i + 1, all.len() as int));
        }
        if ss[i].name == *name {
            return Some(ss[i].shortcut.cloned());
        }
        i = i + 1;
    }
    proof {
        assert(all.subrange(i as int, all.len() as int).len() == 0);
    }
    None
}

/// The combination in effect for `a` under the overrides `ss`.
fn effective_of<H>(ss: &Vec<CacheShortcut>, a: &ShortcutHandler<H>) -> (r: Option<KeyCombination>)
    ensures
        match r {
            Some(k) => effective(shortcuts_view(ss@), a@) == Some(k@),
            None => effective(shortcuts_view(ss@), a@) is None,
        },
{
    match find_override(ss, &a.name) {
        Some(k) => Some(k),
        None => match &a.default_shortcut {
            Some(k) => Some(k.cloned()),
            None => None,
        },
    }
}

fn action_snapshot_to_json(a: &ActionSnapshot) -> (r: String)
    ensures
        r@ == action_snapshot_json(a@),
{
    let mut t = String::new();
    t.append("{\"description\":");
    let d = json_quoted(a.description.as_str());
    t.append(d.as_str());
    t.append(",\"name\":");
    let n = json_quoted(a.name.as_str());
    t.append(n.as_str());
    t.append(",\"shortcut\":");
    let k = json_quoted(a.shortcut.as_str());
    t.append(k.as_str());
    t.append("}");
    proof {
        assert(t@ =~= action_snapshot_json(a@));
    }
    t
}

fn extension_snapshot_to_json(e: &ExtensionSnapshot) -> (r: String)
    ensures
        r@ == extension_snapshot_json(e@),
{
    let ghost items = e@.shortcuts.map_values(|a: ActionSnapshotView| action_snapshot_json(a));
    let mut list = String::new();
    list.append("[");
    let mut i: usize = 0;
    while i < e.shortcuts.len()
        invariant
            i <= e.shortcuts.len(),
            items.len() == e.shortcuts.len(),
            items == e@.shortcuts.map_values(|a: ActionSnapshotView| action_snapshot_json(a)),
            list@ == "["@ + joined(items.take(i as int)),
        decreases e.shortcuts.len() - i,
    {
        let item = action_snapshot_to_json(&e.shortcuts[i]);
        append_item(&mut list, Ghost(items), i, item.as_str());
        i = i + 1;
    }
    close_array(&mut list, Ghost(items));
    let mut t = String::new();
    t.append("{\"description\":");
    let d = json_quoted(e.description.as_str());
    t.append(d.as_str());
    t.append(",\"enabled\":");
    append_bool(&mut t, e.enabled);
    t.append(",\"name\":");
    let n = json_quoted(e.name.as_str());
    t.append(n.as_str());
    t.append(",\"shortcuts\":");
    t.append(list.as_str());
    t.append("}");
    proof {
        assert(t@ =~= extension_snapshot_json(e@));
    }
    t
}

/// The snapshot as a JSON array.
pub fn snapshot_to_json(v: &Vec<ExtensionSnapshot>) -> (r: String)
    ensures
        r@ == snapshot_json(snapshots_view(v@)),
{
    let ghost items = snapshots_view(v@).map_values(
        |e: ExtensionSnapshotView| extension_snapshot_json(e),
    );
    let mut t = String::new();
    t.append("[");
    let mut i: usize = 0;
    while i < v.len()
        invariant
            i <= v.len(),
            items.len() == v.len(),
            items == snapshots_view(v@).map_values(
                |e: ExtensionSnapshotView| extension_snapshot_json(e),
            ),
            t@ == "["@ + joined(items.take(i as int)),
        decreases v.len() - i,
    {
        let item = extension_snapshot_to_json(&v[i]);
        append_item(&mut t, Ghost(items), i, item.as_str());
        i = i + 1;
    }
    close_array(&mut t, Ghost(items));
    t
}

/// The registry entry `e` as rendered under the overrides `ss`; the position
/// of the first action without a combination when there is one.
fn render_extension_actions<H>(ss: &Vec<CacheShortcut>, e: &Extension<H>) -> (r: Result<Vec<ActionSnapshot>, usize>)
    ensures
        match r {
            Ok(v) => (forall|j: int| 0 <= j < e@.actions.len() ==> effective(
                shortcuts_view(ss@),
                #[trigger] e@.actions[j],
            ) is Some) && action_snapshots_view(v@) == render_actions(shortcuts_view(ss@), e@.actions),
            Err(j) => j < e@.actions.len() && effective(
                shortcuts_view(ss@),
                e@.actions[j as int],
            ) is None,
        },
{
    let ghost ov = shortcuts_view(ss@);
    let mut out: Vec<ActionSnapshot> = Vec::new();
    let mut j: usize = 0;
    while j < e.shortcuts.len()
        invariant
            j <= e.shortcuts.len(),
            out@.len() == j,
            e@.actions.len() == e.shortcuts@.len(),
            ov == shortcuts_view(ss@),
            forall|x: int| 0 <= x < j ==> effective(ov, #[trigger] e@.actions[x]) is Some,
            action_snapshots_view(out@) == render_actions(ov, e@.actions.take(j as int)),
        decreases e.shortcuts.len() - j,
    {
        let act = &e.shortcuts[j];
        match effective_of(ss, act) {
            Some(k) => {
                let a = ActionSnapshot {
                    name: act.name.clone(),
                    description: act.description.clone(),
                    shortcut: k.to_text(),
                };
                let ghost prev = out@;
                proof {
                    assert(act@ == e@.actions[j as int]);
                    assert(a@ == render_action(ov, e@.actions[j as int]));
                }
                out.push(a);
                proof {
                    let f = action_snapshots_view(out@);
                    let g = render_actions(ov, e@.actions.take(j + 1));
                    let g0 = render_actions(ov, e@.actions.take(j as int));
                    assert(action_snapshots_view(prev) == g0);
                    assert forall|x: int| 0 <= x < g.len() implies f[x] == g[x] by {
                        if x < j {
                            assert(f[x] == action_snapshots_view(prev)[x]);
                            assert(g[x] == g0[x]);
                        }
                    }
                    assert(f =~= g);
                }
            },
            None => {
                return Err(j);
            },
        }
        j = j + 1;
    }
    proof {
        assert(e@.actions.take(j as int) =~= e@.actions);
    }
    Ok(out)
}

/// Each action in a snapshot shows the canonical text of the override that
/// the record of its extension holds for it, else of its default.
pub proof fn lemma_rendered_shortcut(rs: Seq<RecordView>, regs: Seq<ExtensionView>, i: int, j: int)
    requires
        renderable(rs, regs),
        0 <= i < regs.len(),
        0 <= j < regs[i].actions.len(),
    ensures
        render(rs, regs)[i].shortcuts[j].shortcut == match override_in(
            rendered_overrides(rs, regs[i].name),
            regs[i].actions[j].name,
        ) {
            Some(k) => canonical_text(k),
            None => canonical_text(regs[i].actions[j].default->0),
        },
        regs[i].actions[j].default is None ==> override_in(
            rendered_overrides(rs, regs[i].name),
            regs[i].actions[j].name,
        ) is Some,
{
    assert(effective(rendered_overrides(rs, regs[i].name), regs[i].actions[j]) is Some);
}

proof fn lemma_no_record(rs: Seq<RecordView>, name: Seq<char>, n: int)
    requires
        0 <= n <= rs.len(),
        forall|x: int| 0 <= x < rs.len() ==> rs[x].name != name,
    ensures
        last_record_in(rs, name, n) is None,
    decreases n,
{
    if n > 0 {
        lemma_no_record(rs, name, n - 1);
    }
}

/// An extension that no record names is shown disabled, with every action at
/// its default.
pub proof fn lemma_absent_is_disabled(rs: Seq<RecordView>, regs: Seq<ExtensionView>, i: int)
    requires
        0 <= i < regs.len(),
        forall|x: int| 0 <= x < rs.len() ==> rs[x].name != regs[i].name,
    ensures
        !render(rs, regs)[i].enabled,
        forall|j: int|
            0 <= j < regs[i].actions.len() ==> effective(
                rendered_overrides(rs, regs[i].name),
                #[trigger] regs[i].actions[j],
            ) == regs[i].actions[j].default,
{
    lemma_no_record(rs, regs[i].name, rs.len() as int);
}

proof fn lemma_handler_entries(regs: Seq<ExtensionView>, e: int, a: int)
    requires
        regs.len() <= usize::MAX,
        0 <= e < regs.len(),
        0 <= a < regs[e].actions.len(),
        regs[e].actions.len() <= usize::MAX,
    ensures
        handler_entries(regs).contains(HandlerRef { extension: e as usize, action: a as usize }),
    decreases regs.len(),
{
    let hs = handler_entries(regs);
    let prev = handler_entries(regs.drop_last());
    if e == regs.len() - 1 {
        let p = prev.len() + a;
        assert(hs[p] == HandlerRef { extension: e as usize, action: a as usize });
    } else {
        lemma_handler_entries(regs.drop_last(), e, a);
        let p = choose|p: int| 0 <= p < prev.len() && prev[p] == HandlerRef { extension: e as usize, action: a as usize };
        assert(hs[p] == prev[p]);
    }
}

proof fn lemma_handler_entries_in(regs: Seq<ExtensionView>, p: int)
    requires
        0 <= p < handler_entries(regs).len(),
        regs.len() <= usize::MAX,
        forall|e: int| 0 <= e < regs.len() ==> #[trigger] regs[e].actions.len() <= usize::MAX,
    ensures
        refs_in(regs, handler_entries(regs)[p]),
    decreases regs.len(),
{
    let prev = handler_entries(regs.drop_last());
    if p < prev.len() {
        lemma_handler_entries_in(regs.drop_last(), p);
    } else {
        assert(regs.last().actions.len() <= usize::MAX);
    }
}

proof fn lemma_default_complete(r: RecordView, regs: Seq<ExtensionView>, hs: Seq<HandlerRef>, p: int)
    requires
        0 <= p < hs.len(),
        regs[hs[p].extension as int].name == r.name,
        override_in(r.shortcuts, action_at(regs, hs[p]).name) is None,
        action_at(regs, hs[p]).default is Some,
    ensures
        default_bindings(r, regs, hs).contains((action_at(regs, hs[p]).default->0, hs[p])),
    decreases hs.len(),
{
    let bs = default_bindings(r, regs, hs);
    let prev = default_bindings(r, regs, hs.drop_last());
    if p == hs.len() - 1 {
        assert(bs[bs.len() - 1] == (action_at(regs, hs[p]).default->0, hs[p]));
    } else {
        assert(hs.drop_last()[p] == hs[p]);
        lemma_default_complete(r, regs, hs.drop_last(), p);
        let q = choose|q: int|
            0 <= q < prev.len() && prev[q] == (action_at(regs, hs[p]).default->0, hs[p]);
        assert(bs[q] == prev[q]);
    }
}

proof fn lemma_default_sound(r: RecordView, regs: Seq<ExtensionView>, hs: Seq<HandlerRef>, q: int)
    requires
        0 <= q < default_bindings(r, regs, hs).len(),
    ensures
        ({
            let (k, h) = default_bindings(r, regs, hs)[q];
            hs.contains(h) && regs[h.extension as int].name == r.name && override_in(
                r.shortcuts,
                action_at(regs, h).name,
            ) is None && action_at(regs, h).default == Some(k)
        }),
    decreases hs.len(),
{
    let prev = default_bindings(r, regs, hs.drop_last());
    if q < prev.len() {
        lemma_default_sound(r, regs, hs.drop_last(), q);
        let h = prev[q].1;
        let p = choose|p: int| 0 <= p < hs.drop_last().len() && hs.drop_last()[p] == h;
        assert(hs[p] == h);
    } else {
        assert(hs[hs.len() - 1] == hs.last());
    }
}

proof fn lemma_lookup_sound(regs: Seq<ExtensionView>, hs: Seq<HandlerRef>, en: Seq<char>, an: Seq<char>)
    ensures
        handler_lookup(regs, hs, en, an) matches Some(h) ==> hs.contains(h)
            && regs[h.extension as int].name == en && action_at(regs, h).name == an,
    decreases hs.len(),
{
    if hs.len() > 0 {
        lemma_lookup_sound(regs, hs.drop_last(), en, an);
        if handler_lookup(regs, hs, en, an) is Some {
            let h = handler_lookup(regs, hs, en, an)->0;
            if h == hs.last() {
                assert(hs[hs.len() - 1] == h);
            } else {
                let p = choose|p: int| 0 <= p < hs.drop_last().len() && hs.drop_last()[p] == h;
                assert(hs[p] == h);
            }
        }
    }
}

proof fn lemma_lookup_complete(regs: Seq<ExtensionView>, hs: Seq<HandlerRef>, en: Seq<char>, an: Seq<char>, p: int)
    requires
        0 <= p < hs.len(),
        regs[hs[p].extension as int].name == en,
        action_at(regs, hs[p]).name == an,
    ensures
        handler_lookup(regs, hs, en, an) is Some,
    decreases hs.len(),
{
    if p < hs.len() - 1 {
        assert(hs.drop_last()[p] == hs[p]);
        lemma_lookup_complete(regs, hs.drop_last(), en, an, p);
    }
}

proof fn lemma_override_complete(en: Seq<char>, regs: Seq<ExtensionView>, hs: Seq<HandlerRef>, ss: Seq<ShortcutView>, j: int)
    requires
        0 <= j < ss.len(),
        handler_lookup(regs, hs, en, ss[j].name) is Some,
    ensures
        override_bindings(en, regs, hs, ss).contains(
            (ss[j].combination, handler_lookup(regs, hs, en, ss[j].name)->0),
        ),
    decreases ss.len(),
{
    let bs = override_bindings(en, regs, hs, ss);
    let prev = override_bindings(en, regs, hs, ss.drop_last());
    let x = (ss[j].combination, handler_lookup(regs, hs, en, ss[j].name)->0);
    if j == ss.len() - 1 {
        assert(bs[bs.len() - 1] == x);
    } else {
        assert(ss.drop_last()[j] == ss[j]);
        lemma_override_complete(en, regs, hs, ss.drop_last(), j);
        let q = choose|q: int| 0 <= q < prev.len() && prev[q] == x;
        assert(bs[q] == prev[q]);
    }
}

proof fn lemma_override_sound(en: Seq<char>, regs: Seq<ExtensionView>, hs: Seq<HandlerRef>, ss: Seq<ShortcutView>, q: int)
    requires
        0 <= q < override_bindings(en, regs, hs, ss).len(),
    ensures
        ({
            let (k, h) = override_bindings(en, regs, hs, ss)[q];
            hs.contains(h) && regs[h.extension as int].name == en && exists|j: int|
                0 <= j < ss.len() && #[trigger] ss[j].name == action_at(regs, h).name
                    && ss[j].combination == k
        }),
    decreases ss.len(),
{
    let prev = override_bindings(en, regs, hs, ss.drop_last());
    let (k, h) = override_bindings(en, regs, hs, ss)[q];
    if q < prev.len() {
        lemma_override_sound(en, regs, hs, ss.drop_last(), q);
        let j = choose|j: int|
            0 <= j < ss.drop_last().len() && #[trigger] ss.drop_last()[j].name == action_at(regs, h).name
                && ss.drop_last()[j].combination == k;
        assert(ss[j] == ss.drop_last()[j]);
    } else {
        lemma_lookup_sound(regs, hs, en, ss.last().name);
        assert(ss[ss.len() - 1] == ss.last());
    }
}

proof fn lemma_record_sound(r: RecordView, regs: Seq<ExtensionView>, hs: Seq<HandlerRef>, q: int)
    requires
        0 <= q < record_bindings(r, regs, hs).len(),
    ensures
        ({
            let (k, h) = record_bindings(r, regs, hs)[q];
            hs.contains(h) && regs[h.extension as int].name == r.name && binds(r, action_at(regs, h), k)
        }),
{
    let db = default_bindings(r, regs, hs);
    if q < db.len() {
        lemma_default_sound(r, regs, hs, q);
    } else {
        lemma_override_sound(r.name, regs, hs, r.shortcuts, q - db.len());
    }
}

proof fn lemma_bindings_complete(rs: Seq<RecordView>, regs: Seq<ExtensionView>, hs: Seq<HandlerRef>, i: int, x: (KeyView, HandlerRef))
    requires
        0 <= i < rs.len(),
        rs[i].enabled,
        record_bindings(rs[i], regs, hs).contains(x),
    ensures
        bindings(rs, regs, hs).contains(x),
    decreases rs.len(),
{
    let bs = bindings(rs, regs, hs);
    let prev = bindings(rs.drop_last(), regs, hs);
    if i == rs.len() - 1 {
        let rb = record_bindings(rs[i], regs, hs);
        let q = choose|q: int| 0 <= q < rb.len() && rb[q] == x;
        assert(bs[prev.len() + q] == x);
    } else {
        assert(rs.drop_last()[i] == rs[i]);
        lemma_bindings_complete(rs.drop_last(), regs, hs, i, x);
        let q = choose|q: int| 0 <= q < prev.len() && prev[q] == x;
        assert(bs[q] == prev[q]);
    }
}

proof fn lemma_bindings_sound(rs: Seq<RecordView>, regs: Seq<ExtensionView>, hs: Seq<HandlerRef>, q: int)
    requires
        0 <= q < bindings(rs, regs, hs).len(),
    ensures
        ({
            let (k, h) = bindings(rs, regs, hs)[q];
            hs.contains(h) && exists|i: int|
                0 <= i < rs.len() && rs[i].enabled && regs[h.extension as int].name == rs[i].name
                    && #[trigger] binds(rs[i], action_at(regs, h), k)
        }),
    decreases rs.len(),
{
    let prev = bindings(rs.drop_last(), regs, hs);
    let (k, h) = bindings(rs, regs, hs)[q];
    if q < prev.len() {
        lemma_bindings_sound(rs.drop_last(), regs, hs, q);
        let i = choose|i: int|
            0 <= i < rs.drop_last().len() && rs.drop_last()[i].enabled
                && regs[h.extension as int].name == rs.drop_last()[i].name
                && #[trigger] binds(rs.drop_last()[i], action_at(regs, h), k);
        assert(rs[i] == rs.drop_last()[i]);
    } else {
        let i = rs.len() - 1;
        assert(rs.last().enabled);
        lemma_record_sound(rs[i], regs, hs, q - prev.len());
        assert(binds(rs[i], action_at(regs, h), k));
    }
}

proof fn lemma_last_binding(bs: Seq<(KeyView, HandlerRef)>, k: KeyView)
    ensures
        last_binding(bs, k) is Some <==> exists|q: int| 0 <= q < bs.len() && bs[q].0 == k,
        last_binding(bs, k) matches Some(h) ==> bs.contains((k, h)),
    decreases bs.len(),
{
    if bs.len() > 0 {
        let prev = bs.drop_last();
        lemma_last_binding(prev, k);
        if bs.last().0 != k {
            if exists|q: int| 0 <= q < bs.len() && bs[q].0 == k {
                let q = choose|q: int| 0 <= q < bs.len() && bs[q].0 == k;
                assert(prev[q] == bs[q]);
            }
            if last_binding(prev, k) is Some {
                let q = choose|q: int| 0 <= q < prev.len() && prev[q] == (k, last_binding(prev, k)->0);
                assert(bs[q] == prev[q]);
            }
        } else {
            assert(bs[bs.len() - 1] == bs.last());
        }
    }
}

proof fn lemma_dispatch(rs: Seq<RecordView>, regs: Seq<ExtensionView>, k: KeyView)
    requires
        regs.len() <= usize::MAX,
        forall|e: int| 0 <= e < regs.len() ==> #[trigger] regs[e].actions.len() <= usize::MAX,
    ensures
        last_binding(bindings(rs, regs, handler_entries(regs)), k) is Some <==> exists|
            i: int,
            e: int,
            a: int,
        |
            0 <= i < rs.len() && rs[i].enabled && 0 <= e < regs.len() && 0 <= a
                < regs[e].actions.len() && regs[e].name == rs[i].name
                && #[trigger] binds(rs[i], regs[e].actions[a], k),
        last_binding(bindings(rs, regs, handler_entries(regs)), k) matches Some(h) ==> refs_in(
            regs,
            h,
        ) && exists|i: int|
            0 <= i < rs.len() && rs[i].enabled && regs[h.extension as int].name == rs[i].name
                && #[trigger] binds(rs[i], action_at(regs, h), k),
{
    let hs = handler_entries(regs);
    let bs = bindings(rs, regs, hs);
    lemma_last_binding(bs, k);
    if last_binding(bs, k) is Some {
        let h = last_binding(bs, k)->0;
        let q = choose|q: int| 0 <= q < bs.len() && bs[q] == (k, h);
        lemma_bindings_sound(rs, regs, hs, q);
        let p = choose|p: int| 0 <= p < hs.len() && hs[p] == h;
        lemma_handler_entries_in(regs, p);
        let i = choose|i: int|
            0 <= i < rs.len() && rs[i].enabled && regs[h.extension as int].name == rs[i].name
                && #[trigger] binds(rs[i], action_at(regs, h), k);
        assert(regs[h.extension as int].actions[h.action as int] == action_at(regs, h));
    }
    if exists|i: int, e: int, a: int|
        0 <= i < rs.len() && rs[i].enabled && 0 <= e < regs.len() && 0 <= a < regs[e].actions.len()
            && regs[e].name == rs[i].name && #[trigger] binds(rs[i], regs[e].actions[a], k) {
        let (i, e, a) = choose|i: int, e: int, a: int|
            0 <= i < rs.len() && rs[i].enabled && 0 <= e < regs.len() && 0 <= a < regs[e].actions.len()
                && regs[e].name == rs[i].name && #[trigger] binds(rs[i], regs[e].actions[a], k);
        let r = rs[i];
        let act = regs[e].actions[a];
        let h = HandlerRef { extension: e as usize, action: a as usize };
        assert(regs[e].actions.len() <= usize::MAX);
        lemma_handler_entries(regs, e, a);
        let p = choose|p: int| 0 <= p < hs.len() && hs[p] == h;
        assert(action_at(regs, h) == act);
        let db = default_bindings(r, regs, hs);
        let rb = record_bindings(r, regs, hs);
        if override_in(r.shortcuts, act.name) is None && act.default == Some(k) {
            lemma_default_complete(r, regs, hs, p);
            let q = choose|q: int| 0 <= q < db.len() && db[q] == (k, h);
            assert(rb[q] == (k, h));
            lemma_bindings_complete(rs, regs, hs, i, (k, h));
        } else {
            let j = choose|j: int|
                0 <= j < r.shortcuts.len() && #[trigger] r.shortcuts[j].name == act.name
                    && r.shortcuts[j].combination == k;
            lemma_lookup_complete(regs, hs, r.name, r.shortcuts[j].name, p);
            let h2 = handler_lookup(regs, hs, r.name, r.shortcuts[j].name)->0;
            lemma_override_complete(r.name, regs, hs, r.shortcuts, j);
            let ob = override_bindings(r.name, regs, hs, r.shortcuts);
            let q = choose|q: int| 0 <= q < ob.len() && ob[q] == (k, h2);
            assert(rb[db.len() + q] == (k, h2));
            lemma_bindings_complete(rs, regs, hs, i, (k, h2));
        }
        let q = choose|q: int| 0 <= q < bs.len() && bs[q].0 == k;
    }
}

/// After the indices were built, a key combination reaches a handler exactly
/// when an enabled record binds it to an action of an extension of that
/// record's name, through one of its overrides for the action or else the
/// action's default; the handler reached is one so bound.
pub proof fn lemma_listen<H>(m: &ExtensionManager<H>, k: KeyView)
    requires
        m.wf(),
        m.handlers() == handler_entries(m.registry()),
        m.dispatch_index() == bindings(m.cache(), m.registry(), m.handlers()),
    ensures
        last_binding(m.dispatch_index(), k) is Some <==> exists|i: int, e: int, a: int|
            0 <= i < m.cache().len() && m.cache()[i].enabled && 0 <= e < m.registry().len() && 0
                <= a < m.registry()[e].actions.len() && m.registry()[e].name == m.cache()[i].name
                && #[trigger] binds(m.cache()[i], m.registry()[e].actions[a], k),
        last_binding(m.dispatch_index(), k) matches Some(h) ==> refs_in(m.registry(), h)
            && exists|i: int|
            0 <= i < m.cache().len() && m.cache()[i].enabled && m.registry()[h.extension as int].name
                == m.cache()[i].name && #[trigger] binds(m.cache()[i], action_at(m.registry(), h), k),
{
    lemma_dispatch(m.cache(), m.registry(), k);
}

/// The registry, the cache, and the two indices built from them.
pub struct ExtensionManager<H> {
    extensions: Vec<Extension<H>>,
    cache_manager: CacheManager,
    handler_mapper: Vec<HandlerRef>,
    shortcut_mapper: Vec<(KeyCombination, HandlerRef)>,
}

impl<H> ExtensionManager<H> {
    /// The registered extensions.
    pub closed spec fn registry(&self) -> Seq<ExtensionView> {
        extensions_view(self.extensions@)
    }

    /// The cache records.
    pub closed spec fn cache(&self) -> Seq<RecordView> {
        self.cache_manager@
    }

    /// The handler index.
    pub closed spec fn handlers(&self) -> Seq<HandlerRef> {
        self.handler_mapper@
    }

    /// The dispatch index, in the order it was built.
    pub closed spec fn dispatch_index(&self) -> Seq<(KeyView, HandlerRef)> {
        self.shortcut_mapper@.map_values(|p: (KeyCombination, HandlerRef)| (p.0@, p.1))
    }

    pub closed spec fn handler_of(&self, h: HandlerRef) -> H {
        self.extensions@[h.extension as int].shortcuts@[h.action as int].handle
    }

    /// The registry's sizes fit its positions, and every entry of both
    /// indices names an action of the registry.
    pub closed spec fn wf(&self) -> bool {
        &&& self.registry().len() <= usize::MAX
        &&& forall|e: int|
            0 <= e < self.registry().len() ==> #[trigger] self.registry()[e].actions.len()
                <= usize::MAX
        &&& forall|i: int|
            0 <= i < self.handler_mapper@.len() ==> refs_in(
                self.registry(),
                #[trigger] self.handler_mapper@[i],
            )
        &&& forall|i: int|
            0 <= i < self.shortcut_mapper@.len() ==> refs_in(
                self.registry(),
                #[trigger] self.shortcut_mapper@[i].1,
            )
    }

    /// A manager with no extensions, an empty cache at the default location
    /// and empty indices.
    pub fn new() -> (r: ExtensionManager<H>)
        ensures
            r.wf(),
            r.registry() == Seq::<ExtensionView>::empty(),
            r.cache() == Seq::<RecordView>::empty(),
            r.handlers() == Seq::<HandlerRef>::empty(),
            r.dispatch_index() == Seq::<(KeyView, HandlerRef)>::empty(),
    {
        let r = ExtensionManager {
            extensions: Vec::new(),
            cache_manager: CacheManager::new(None),
            handler_mapper: Vec::new(),
            shortcut_mapper: Vec::new(),
        };
        proof {
            assert(r.registry() =~= Seq::<ExtensionView>::empty());
            assert(r.dispatch_index() =~= Seq::<(KeyView, HandlerRef)>::empty());
        }
        r
    }

    /// A manager with no extensions around the given cache, with empty indices.
    pub fn with_cache(cache_manager: CacheManager) -> (r: ExtensionManager<H>)
        ensures
            r.wf(),
            r.registry() == Seq::<ExtensionView>::empty(),
            r.cache() == cache_manager@,
            r.handlers() == Seq::<HandlerRef>::empty(),
            r.dispatch_index() == Seq::<(KeyView, HandlerRef)>::empty(),
    {
        let r = ExtensionManager {
            extensions: Vec::new(),
            cache_manager,
            handler_mapper: Vec::new(),
            shortcut_mapper: Vec::new(),
        };
        proof {
            assert(r.registry() =~= Seq::<ExtensionView>::empty());
            assert(r.dispatch_index() =~= Seq::<(KeyView, HandlerRef)>::empty());
        }
        r
    }

    pub fn extensions(&self) -> (r: &Vec<Extension<H>>)
        ensures
            extensions_view(r@) == self.registry(),
    {
        &self.extensions
    }

    pub fn cache_manager(&self) -> (r: &CacheManager)
        ensures
            r@ == self.cache(),
    {
        &self.cache_manager
    }

    /// Adds an extension at the end of the registry; the indices are kept.
    pub fn register(&mut self, extension: Extension<H>)
        requires
            old(self).wf(),
        ensures
            final(self).wf(),
            final(self).registry() == old(self).registry().push(extension@),
            final(self).cache() == old(self).cache(),
            final(self).handlers() == old(self).handlers(),
            final(self).dispatch_index() == old(self).dispatch_index(),
            forall|h: HandlerRef| refs_in(old(self).registry(), h) ==> final(self).handler_of(h) == old(self).handler_of(h),
            forall|a: int|
                0 <= a < extension.shortcuts@.len() ==> final(self).handler_of(
                    HandlerRef { extension: old(self).registry().len() as usize, action: a as usize },
                ) == extension.shortcuts@[a].handle,
    {
        let ghost ext = extension;
        let n = extension.shortcuts.len();
        self.extensions.push(extension);
        let m = self.extensions.len();
        proof {
            assert(self.registry() =~= old(self).registry().push(ext@));
            assert(self.registry()[m - 1].actions.len() == n);
        }
    }

    /// Replaces the cache records; the indices are kept until the next build.
    pub fn set_extensions(&mut self, records: Vec<CacheExtension>)
        requires
            old(self).wf(),
        ensures
            final(self).wf(),
            final(self).registry() == old(self).registry(),
            final(self).cache() == crate::cache_manager::records_view(records@),
            final(self).handlers() == old(self).handlers(),
            final(self).dispatch_index() == old(self).dispatch_index(),
    {
        self.cache_manager.replace_from(records);
    }

    /// Rebuilds the handler index: every action of the registry.
    pub fn build_handler_mapper(&mut self)
        requires
            old(self).wf(),
        ensures
            final(self).wf(),
            final(self).handlers() == handler_entries(final(self).registry()),
            final(self).registry() == old(self).registry(),
            final(self).cache() == old(self).cache(),
            final(self).dispatch_index() == old(self).dispatch_index(),
    {
        let ghost regs = self.registry();
        let mut hm: Vec<HandlerRef> = Vec::new();
        let mut e: usize = 0;
        proof {
            assert(regs.take(0) =~= Seq::<ExtensionView>::empty());
        }
        while e < self.extensions.len()
            invariant
                e <= self.extensions.len(),
                regs == self.registry(),
                regs.len() == self.extensions.len(),
                hm@ == handler_entries(regs.take(e as int)),
                forall|i: int| 0 <= i < hm@.len() ==> refs_in(regs, #[trigger] hm@[i]),
            decreases self.extensions.len() - e,
        {
            let n = self.extensions[e].shortcuts.len();
            let ghost before = hm@;
            let mut a: usize = 0;
            while a < n
                invariant
                    e < self.extensions.len(),
                    regs == self.registry(),
                    n == regs[e as int].actions.len(),
                    a <= n,
                    hm@ == before + Seq::new(
                        a as nat,
                        |x: int| HandlerRef { extension: e, action: x as usize },
                    ),
                    forall|i: int| 0 <= i < hm@.len() ==> refs_in(regs, #[trigger] hm@[i]),
                decreases n - a,
            {
                hm.push(HandlerRef { extension: e, action: a });
                proof {
                    assert(hm@ =~= before + Seq::new(
                        (a + 1) as nat,
                        |x: int| HandlerRef { extension: e, action: x as usize },
                    ));
                }
                a = a + 1;
            }
            proof {
                let t = regs.take(e + 1);
                assert(t.drop_last() =~= regs.take(e as int));
                assert(hm@ =~= handler_entries(t));
            }
            e = e + 1;
        }
        proof {
            assert(regs.take(regs.len() as int) =~= regs);
        }
        self.handler_mapper = hm;
    }

    /// Rebuilds the dispatch index from the enabled records and the handler index.
    pub fn build_shortcut_mapper(&mut self)
        requires
            old(self).wf(),
        ensures
            final(self).wf(),
            final(self).dispatch_index() == bindings(
                final(self).cache(),
                final(self).registry(),
                final(self).handlers(),
            ),
            final(self).registry() == old(self).registry(),
            final(self).cache() == old(self).cache(),
            final(self).handlers() == old(self).handlers(),
    {
        let ghost regs = self.registry();
        let ghost hs = self.handlers();
        let ghost rs = self.cache();
        let records = self.cache_manager.extensions();
        let mut sm: Vec<(KeyCombination, HandlerRef)> = Vec::new();
        let ghost smv = |v: Seq<(KeyCombination, HandlerRef)>|
            v.map_values(|p: (KeyCombination, HandlerRef)| (p.0@, p.1));
        proof {
            assert(rs.take(0) =~= Seq::<RecordView>::empty());
            assert(smv(sm@) =~= Seq::<(KeyView, HandlerRef)>::empty());
        }
        let mut i: usize = 0;
        while i < records.len()
            invariant
                i <= records.len(),
                self.wf(),
                regs == self.registry(),
                hs == self.handlers(),
                rs == self.cache(),
                rs == crate::cache_manager::records_view(records@),
                smv == (|v: Seq<(KeyCombination, HandlerRef)>|
                    v.map_values(|p: (KeyCombination, HandlerRef)| (p.0@, p.1))),
                smv(sm@) == bindings(rs.take(i as int), regs, hs),
                forall|j: int| 0 <= j < sm@.len() ==> refs_in(regs, #[trigger] sm@[j].1),
            decreases records.len() - i,
        {
            let rec = &records[i];
            let ghost before = smv(sm@);
            let ghost r = rs[i as int];
            if rec.enabled {
                proof {
                    assert(hs.take(0) =~= Seq::<HandlerRef>::empty());
                    assert(before + default_bindings(r, regs, hs.take(0)) =~= before);
                }
                let mut j: usize = 0;
                while j < self.handler_mapper.len()
                    invariant
                        i < records.len(),
                        j <= self.handler_mapper.len(),
                        self.wf(),
                        regs == self.registry(),
                        hs == self.handlers(),
                        r == rs[i as int],
                        r == rec@,
                        smv == (|v: Seq<(KeyCombination, HandlerRef)>|
                            v.map_values(|p: (KeyCombination, HandlerRef)| (p.0@, p.1))),
                        smv(sm@) == before + default_bindings(r, regs, hs.take(j as int)),
                        forall|x: int| 0 <= x < sm@.len() ==> refs_in(regs, #[trigger] sm@[x].1),
                    decreases self.handler_mapper.len() - j,
                {
                    let h = self.handler_mapper[j];
                    assert(refs_in(regs, hs[j as int]));
                    let ext = &self.extensions[h.extension];
                    proof {
                        assert(hs.take(j + 1).drop_last() =~= hs.take(j as int));
                        assert(hs.take(j + 1).last() == h);
                        assert(ext@ == regs[h.extension as int]);
                    }
                    if ext.name == rec.name {
                        let act = &ext.shortcuts[h.action];
                        proof {
                            assert(act@ == action_at(regs, h));
                        }
                        if find_override(&rec.shortcuts, &act.name).is_none() {
                            match &act.default_shortcut {
                                Some(k) => {
                                    let ghost prev = sm@;
                                    sm.push((k.cloned(), h));
                                    proof {
                                        assert(smv(sm@) =~= smv(prev).push((k@, h)));
                                    }
                                },
                                None => {},
                            }
                        }
                    }
                    proof {
                        assert(smv(sm@) =~= before + default_bindings(r, regs, hs.take(j + 1)));
                    }
                    j = j + 1;
                }
                let ghost mid = smv(sm@);
                proof {
                    assert(hs.take(hs.len() as int) =~= hs);
                    assert(r.shortcuts.take(0) =~= Seq::<ShortcutView>::empty());
                    assert(mid + override_bindings(r.name, regs, hs, r.shortcuts.take(0)) =~= mid);
                }
                let mut j: usize = 0;
                while j < rec.shortcuts.len()
                    invariant
                        i < records.len(),
                        j <= rec.shortcuts.len(),
                        self.wf(),
                        regs == self.registry(),
                        hs == self.handlers(),
                        r == rec@,
                        r.shortcuts.len() == rec.shortcuts.len(),
                        mid == before + default_bindings(r, regs, hs),
                        smv == (|v: Seq<(KeyCombination, HandlerRef)>|
                            v.map_values(|p: (KeyCombination, HandlerRef)| (p.0@, p.1))),
                        smv(sm@) == mid + override_bindings(r.name, regs, hs, r.shortcuts.take(j as int)),
                        forall|x: int| 0 <= x < sm@.len() ==> refs_in(regs, #[trigger] sm@[x].1),
                    decreases rec.shortcuts.len() - j,
                {
                    let s = &rec.shortcuts[j];
                    proof {
                        let t = r.shortcuts.take(j + 1);
                        assert(t.drop_last() =~= r.shortcuts.take(j as int));
                        assert(t.last() == s@);
                    }
                    match self.find_handler(&rec.name, &s.name) {
                        Some(h) => {
                            let ghost prev = sm@;
                            sm.push((s.shortcut.cloned(), h));
                            proof {
                                assert(smv(sm@) =~= smv(prev).push((s.shortcut@, h)));
                            }
                        },
                        None => {},
                    }
                    proof {
                        assert(smv(sm@) =~= mid + override_bindings(
                            r.name,
                            regs,
                            hs,
                            r.shortcuts.take(j + 1),
                        ));
                    }
                    j = j + 1;
                }
                proof {
                    assert(r.shortcuts.take(r.shortcuts.len() as int) =~= r.shortcuts);
                    assert(smv(sm@) =~= before + record_bindings(r, regs, hs));
                }
            }
            proof {
                let t = rs.take(i + 1);
                assert(t.drop_last() =~= rs.take(i as int));
                assert(t.last() == r);
                assert(smv(sm@) =~= bindings(t, regs, hs));
            }
            i = i + 1;
        }
        proof {
            assert(rs.take(rs.len() as int) =~= rs);
        }
        self.shortcut_mapper = sm;
    }

    /// The last handler of the index for action `an` of an extension named `en`.
    fn find_handler(&self, en: &String, an: &String) -> (r: Option<HandlerRef>)
        requires
            self.wf(),
        ensures
            r == handler_lookup(self.registry(), self.handlers(), en@, an@),
            r matches Some(h) ==> refs_in(self.registry(), h),
    {
        let ghost regs = self.registry();
        let ghost hs = self.handlers();
        let mut i = self.handler_mapper.len();
        proof {
            assert(hs.take(i as int) =~= hs);
        }
        while i > 0
            invariant
                i <= self.handler_mapper.len(),
                regs == self.registry(),
                hs == self.handlers(),
                self.wf(),
                handler_lookup(regs, hs, en@, an@) == handler_lookup(regs, hs.take(i as int), en@, an@),
            decreases i,
        {
            let h = self.handler_mapper[i - 1];
            assert(refs_in(regs, hs[i - 1]));
            let ext = &self.extensions[h.extension];
            proof {
                assert(hs.take(i as int).drop_last() =~= hs.take(i - 1));
                assert(hs.take(i as int).last() == h);
                assert(ext@ == regs[h.extension as int]);
            }
            if ext.name == *en {
                let act = &ext.shortcuts[h.action];
                proof {
                    assert(act@ == action_at(regs, h));
                }
                if act.name == *an {
                    return Some(h);
                }
            }
            i = i - 1;
        }
        None
    }

    /// Takes in what the store held, then rebuilds both indices.
    pub fn init(&mut self, stored: StoredCache)
        requires
            old(self).wf(),
        ensures
            final(self).wf(),
            final(self).registry() == old(self).registry(),
            match stored {
                StoredCache::Empty => final(self).cache() == old(self).cache(),
                StoredCache::Records(v) => final(self).cache() == crate::cache_manager::records_view(v@),
                StoredCache::Malformed => final(self).cache() == Seq::<RecordView>::empty(),
            },
            final(self).handlers() == handler_entries(final(self).registry()),
            final(self).dispatch_index() == bindings(
                final(self).cache(),
                final(self).registry(),
                handler_entries(final(self).registry()),
            ),
    {
        self.cache_manager.read_from_store(stored);
        self.build_handler_mapper();
        self.build_shortcut_mapper();
    }

    /// One entry per registered extension: its enabled flag from the record
    /// that stands for it (disabled where there is none) and, for each action,
    /// the canonical text of its override, else of its default.
    pub fn snapshot(&self) -> (r: Result<Vec<ExtensionSnapshot>, SnapshotError>)
        ensures
            r is Ok <==> renderable(self.cache(), self.registry()),
            r matches Ok(v) ==> snapshots_view(v@) == render(self.cache(), self.registry()),
            r matches Err(SnapshotError::MissingDefaultCombination { extension, action }) ==> exists|
                i: int,
                j: int,
            |
                0 <= i < self.registry().len() && 0 <= j < self.registry()[i].actions.len()
                    && self.registry()[i].name == extension@
                    && self.registry()[i].actions[j].name == action@ && effective(
                    rendered_overrides(self.cache(), self.registry()[i].name),
                    self.registry()[i].actions[j],
                ) is None,
    {
        let ghost regs = self.registry();
        let ghost rs = self.cache();
        let records = self.cache_manager.extensions();
        let empty: Vec<CacheShortcut> = Vec::new();
        let mut out: Vec<ExtensionSnapshot> = Vec::new();
        let mut i: usize = 0;
        while i < self.extensions.len()
            invariant
                i <= self.extensions.len(),
                out@.len() == i,
                regs == self.registry(),
                regs.len() == self.extensions@.len(),
                rs == self.cache(),
                rs == crate::cache_manager::records_view(records@),
                empty@.len() == 0,
                forall|x: int, j: int|
                    0 <= x < i && 0 <= j < regs[x].actions.len() ==> effective(
                        rendered_overrides(rs, regs[x].name),
                        #[trigger] regs[x].actions[j],
                    ) is Some,
                snapshots_view(out@) == render(rs, regs.take(i as int)),
            decreases self.extensions.len() - i,
        {
            let ext = &self.extensions[i];
            assert(ext@ == regs[i as int]);
            let found = self.cache_manager.find(&ext.name);
            let (overrides, enabled) = match found {
                Some(k) => (&records[k].shortcuts, records[k].enabled),
                None => (&empty, false),
            };
            proof {
                assert(shortcuts_view(overrides@) =~= rendered_overrides(
                    rs,
                    regs[i as int].name,
                ));
                assert(enabled == rendered_enabled(rs, regs[i as int].name));
            }
            match render_extension_actions(overrides, ext) {
                Ok(actions) => {
                    let e = ExtensionSnapshot {
                        name: ext.name.clone(),
                        description: ext.description.clone(),
                        enabled,
                        shortcuts: actions,
                    };
                    proof {
                        assert(e@ == render_extension(rs, regs[i as int]));
                    }
                    let ghost prev = out@;
                    out.push(e);
                    proof {
                        let f = snapshots_view(out@);
                        let g = render(rs, regs.take(i + 1));
                        let g0 = render(rs, regs.take(i as int));
                        assert forall|x: int| 0 <= x < g.len() implies f[x] == g[x] by {
                            if x < i {
                                assert(f[x] == snapshots_view(prev)[x]);
                                assert(g[x] == g0[x]);
                            }
                        }
                        assert(f =~= g);
                    }
                },
                Err(j) => {
                    let extension = ext.name.clone();
                    let action = ext.shortcuts[j].name.clone();
                    proof {
                        assert(!renderable(rs, regs)) by {
                            assert(regs[i as int].actions[j as int] == ext@.actions[j as int]);
                        }
                    }
                    return Err(SnapshotError::MissingDefaultCombination { extension, action });
                },
            }
            i = i + 1;
        }
        proof {
            assert(regs.take(i as int) =~= regs);
        }
        Ok(out)
    }

    /// The snapshot as JSON text: an array of
    /// `{"description", "enabled", "name", "shortcuts": [{"description", "name", "shortcut"}]}`.
    pub fn to_string(&self) -> (r: Result<String, SnapshotError>)
        ensures
            r is Ok <==> renderable(self.cache(), self.registry()),
            r matches Ok(t) ==> t@ == snapshot_json(render(self.cache(), self.registry())),
    {
        match self.snapshot() {
            Ok(v) => Ok(snapshot_to_json(&v)),
            Err(e) => Err(e),
        }
    }

    /// The handler bound to `shortcut`, if any.
    pub fn lookup(&self, shortcut: &KeyCombination) -> (r: Option<HandlerRef>)
        requires
            self.wf(),
        ensures
            r == last_binding(self.dispatch_index(), shortcut@),
            r matches Some(h) ==> refs_in(self.registry(), h),
    {
        let ghost bs = self.dispatch_index();
        let mut i = self.shortcut_mapper.len();
        proof {
            assert(bs.take(i as int) =~= bs);
        }
        while i > 0
            invariant
                i <= self.shortcut_mapper.len(),
                bs == self.dispatch_index(),
                self.wf(),
                last_binding(bs, shortcut@) == last_binding(bs.take(i as int), shortcut@),
            decreases i,
        {
            proof {
                assert(bs.take(i as int).drop_last() =~= bs.take(i - 1));
            }
            if self.shortcut_mapper[i - 1].0.same_as(shortcut) {
                return Some(self.shortcut_mapper[i - 1].1);
            }
            i = i - 1;
        }
        None
    }

    /// What runs the action bound to `shortcut`; `None` when nothing is bound,
    /// which is the normal outcome for most key events.
    pub fn listen(&self, shortcut: &KeyCombination) -> (r: Option<&H>)
        requires
            self.wf(),
        ensures
            match last_binding(self.dispatch_index(), shortcut@) {
                Some(h) => r == Some(&self.handler_of(h)),
                None => r is None,
            },
    {
        match self.lookup(shortcut) {
            Some(h) => Some(&self.extensions[h.extension].shortcuts[h.action].handle),
            None => None,
        }
    }
}

} // verus!
