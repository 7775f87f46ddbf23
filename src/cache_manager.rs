//! The persistent cache: per-extension enabled flags and key-combination
//! overrides, in the order they were recorded.

use vstd::prelude::*;
use crate::combination::{
    canonical_text, lemma_text_round_trip, parse_text, valid_code, KeyCombination, KeyView,
};
use crate::config::Config;
use crate::json::{
    append_bool, append_item, close_array, json_array, json_bool, json_quoted, json_string,
    joined,
};

verus! {

/// An override of one action's key combination.
#[derive(Clone, Debug, PartialEq, Eq)]
pub struct CacheShortcut {
    pub name: String,
    pub shortcut: KeyCombination,
}

pub struct ShortcutView {
    pub name: Seq<char>,
    pub combination: KeyView,
}

impl View for CacheShortcut {
    type V = ShortcutView;

    open spec fn view(&self) -> ShortcutView {
        ShortcutView { name: self.name@, combination: self.shortcut@ }
    }
}

/// What the cache holds for one extension.
#[derive(Clone, Debug, PartialEq, Eq)]
pub struct CacheExtension {
    pub name: String,
    pub shortcuts: Vec<CacheShortcut>,
    pub enabled: bool,
}

pub struct RecordView {
    pub name: Seq<char>,
    pub enabled: bool,
    pub shortcuts: Seq<ShortcutView>,
}

impl View for CacheExtension {
    type V = RecordView;

    open spec fn view(&self) -> RecordView {
        RecordView {
            name: self.name@,
            enabled: self.enabled,
            shortcuts: shortcuts_view(self.shortcuts@),
        }
    }
}

pub open spec fn shortcuts_view(v: Seq<CacheShortcut>) -> Seq<ShortcutView> {
    v.map_values(|s: CacheShortcut| s@)
}

pub open spec fn records_view(v: Seq<CacheExtension>) -> Seq<RecordView> {
    v.map_values(|r: CacheExtension| r@)
}

pub open spec fn shortcut_json(s: ShortcutView) -> Seq<char> {
    "{\"name\":"@ + json_string(s.name) + ",\"shortcut\":"@ + json_string(
        canonical_text(s.combination),
    ) + "}"@
}

pub open spec fn record_json(r: RecordView) -> Seq<char> {
    "{\"name\":"@ + json_string(r.name) + ",\"shortcuts\":"@ + json_array(
        r.shortcuts.map_values(|s: ShortcutView| shortcut_json(s)),
    ) + ",\"enabled\":"@ + json_bool(r.enabled) + "}"@
}

/// The stored form of a record sequence: a JSON array of records, each
/// combination in its canonical text.
pub open spec fn records_json(rs: Seq<RecordView>) -> Seq<char> {
    json_array(rs.map_values(|r: RecordView| record_json(r)))
}

/// Position of the last record named `name` among the first `n`.
pub open spec fn last_record_in(rs: Seq<RecordView>, name: Seq<char>, n: int) -> Option<int>
    decreases n,
{
    if n <= 0 {
        None
    } else if rs[n - 1].name == name {
        Some(n - 1)
    } else {
        last_record_in(rs, name, n - 1)
    }
}

/// The record that stands for extension `name`: the last one of that name.
pub open spec fn record_of(rs: Seq<RecordView>, name: Seq<char>) -> Option<int> {
    last_record_in(rs, name, rs.len() as int)
}

impl CacheShortcut {
    /// An override from its stored form; `None` when the text is not the
    /// canonical text of a combination.
    pub fn from_text(name: String, text: &str) -> (r: Option<CacheShortcut>)
        ensures
            match r {
                Some(s) => s.name@ == name@ && parse_text(text@) == Some(s.shortcut@),
                None => parse_text(text@) is None,
            },
    {
        match KeyCombination::parse(text) {
            Some(k) => Some(CacheShortcut { name, shortcut: k }),
            None => None,
        }
    }
}

impl CacheExtension {
    /// A record from its stored form, each override as a name and a
    /// combination text; `None` when some text is not canonical.
    pub fn from_stored(name: String, enabled: bool, shortcuts: &Vec<(String, String)>) -> (r: Option<
        CacheExtension,
    >)
        ensures
            r is Some <==> forall|j: int|
                0 <= j < shortcuts@.len() ==> parse_text(#[trigger] shortcuts@[j].1@) is Some,
            r matches Some(e) ==> e.name@ == name@ && e.enabled == enabled && e.shortcuts@.len()
                == shortcuts@.len() && forall|j: int|
                0 <= j < shortcuts@.len() ==> (#[trigger] e.shortcuts@[j]).name@ == shortcuts@[j].0@
                    && parse_text(shortcuts@[j].1@) == Some(e.shortcuts@[j].shortcut@),
    {
        let mut out: Vec<CacheShortcut> = Vec::new();
        let mut j: usize = 0;
        while j < shortcuts.len()
            invariant
                j <= shortcuts.len(),
                out@.len() == j,
                forall|x: int| 0 <= x < j ==> parse_text(#[trigger] shortcuts@[x].1@) is Some,
                forall|x: int|
                    0 <= x < j ==> (#[trigger] out@[x]).name@ == shortcuts@[x].0@ && parse_text(
                        shortcuts@[x].1@,
                    ) == Some(out@[x].shortcut@),
            decreases shortcuts.len() - j,
        {
            let (n, t) = &shortcuts[j];
            match CacheShortcut::from_text(n.clone(), t.as_str()) {
                Some(s) => {
                    out.push(s);
                },
                None => {
                    return None;
                },
            }
            j = j + 1;
        }
        Some(CacheExtension { name, shortcuts: out, enabled })
    }
}

/// A record's stored form reads back as the record: every override's
/// combination text parses to that combination, so `from_stored` on the
/// names and texts gives back the same names, flag and combinations.
pub proof fn lemma_record_round_trip(r: RecordView)
    requires
        forall|j: int| 0 <= j < r.shortcuts.len() ==> valid_code(#[trigger] r.shortcuts[j].combination.code),
    ensures
        forall|j: int|
            0 <= j < r.shortcuts.len() ==> parse_text(canonical_text(#[trigger] r.shortcuts[j].combination))
                == Some(r.shortcuts[j].combination),
{
    assert forall|j: int| 0 <= j < r.shortcuts.len() implies parse_text(
        canonical_text(#[trigger] r.shortcuts[j].combination),
    ) == Some(r.shortcuts[j].combination) by {
        lemma_text_round_trip(r.shortcuts[j].combination);
    }
}

/// What the store held, as the host read and decoded it.
pub enum StoredCache {
    /// An empty or missing file.
    Empty,
    /// A well-formed record sequence.
    Records(Vec<CacheExtension>),
    /// Text that does not decode as a record sequence, or a file that could not be read.
    Malformed,
}

fn shortcut_to_json(s: &CacheShortcut) -> (r: String)
    ensures
        r@ == shortcut_json(s@),
{
    let mut t = String::new();
    t.append("{\"name\":");
    let name = json_quoted(s.name.as_str());
    t.append(name.as_str());
    t.append(",\"shortcut\":");
    let text = s.shortcut.to_text();
    let quoted = json_quoted(text.as_str());
    t.append(quoted.as_str());
    t.append("}");
    proof {
        assert(t@ =~= shortcut_json(s@));
    }
    t
}

fn record_to_json(r: &CacheExtension) -> (res: String)
    ensures
        res@ == record_json(r@),
{
    let ghost items = r@.shortcuts.map_values(|s: ShortcutView| shortcut_json(s));
    let mut list = String::new();
    list.append("[");
    let mut i: usize = 0;
    while i < r.shortcuts.len()
        invariant
            i <= r.shortcuts.len(),
            items.len() == r.shortcuts.len(),
            items == r@.shortcuts.map_values(|s: ShortcutView| shortcut_json(s)),
            list@ == "["@ + joined(items.take(i as int)),
        decreases r.shortcuts.len() - i,
    {
        let item = shortcut_to_json(&r.shortcuts[i]);
        append_item(&mut list, Ghost(items), i, item.as_str());
        i = i + 1;
    }
    close_array(&mut list, Ghost(items));
    let mut t = String::new();
    t.append("{\"name\":");
    let name = json_quoted(r.name.as_str());
    t.append(name.as_str());
    t.append(",\"shortcuts\":");
    t.append(list.as_str());
    t.append(",\"enabled\":");
    append_bool(&mut t, r.enabled);
    t.append("}");
    proof {
        assert(t@ =~= record_json(r@));
    }
    t
}

/// The record sequence and the store it is kept in.
#[derive(Debug)]
pub struct CacheManager {
    extensions: Vec<CacheExtension>,
    config: Config,
}

impl View for CacheManager {
    type V = Seq<RecordView>;

    closed spec fn view(&self) -> Seq<RecordView> {
        records_view(self.extensions@)
    }
}

impl CacheManager {
    pub closed spec fn store(&self) -> Config {
        self.config
    }

    /// An empty cache kept at `path` under the home directory, by default
    /// `.shortcuts/config.json`.
    pub fn new(path: Option<String>) -> (r: CacheManager)
        ensures
            r@ == Seq::<RecordView>::empty(),
            match path {
                Some(p) => r.store().relative() == p@,
                None => r.store().relative() == ".shortcuts/config.json"@,
            },
    {
        let config_path = match path {
            Some(p) => p,
            None => ".shortcuts/config.json".to_string(),
        };
        let r = CacheManager { extensions: Vec::new(), config: Config::new(config_path) };
        proof {
            assert(r@ =~= Seq::<RecordView>::empty());
        }
        r
    }

    /// An empty cache kept at the given location.
    pub fn with_config(config: Config) -> (r: CacheManager)
        ensures
            r@ == Seq::<RecordView>::empty(),
            r.store() == config,
    {
        let r = CacheManager { extensions: Vec::new(), config };
        proof {
            assert(r@ =~= Seq::<RecordView>::empty());
        }
        r
    }

    pub fn config(&self) -> (r: &Config)
        ensures
            *r == self.store(),
    {
        &self.config
    }

    pub fn extensions(&self) -> (r: &Vec<CacheExtension>)
        ensures
            records_view(r@) == self@,
    {
        &self.extensions
    }

    /// Appends one record; records of the same name may repeat.
    pub fn add(&mut self, extension: CacheExtension)
        ensures
            final(self)@ == old(self)@.push(extension@),
            final(self).store() == old(self).store(),
    {
        self.extensions.push(extension);
        proof {
            assert(self@ =~= old(self)@.push(extension@));
        }
    }

    /// Replaces the whole record sequence.
    pub fn replace_from(&mut self, records: Vec<CacheExtension>)
        ensures
            final(self)@ == records_view(records@),
            final(self).store() == old(self).store(),
    {
        self.extensions = records;
    }

    /// Takes in what the store held: an empty store leaves the records as
    /// they are, a well-formed one replaces them, a malformed one leaves the
    /// cache empty.
    pub fn read_from_store(&mut self, stored: StoredCache)
        ensures
            match stored {
                StoredCache::Empty => final(self)@ == old(self)@,
                StoredCache::Records(v) => final(self)@ == records_view(v@),
                StoredCache::Malformed => final(self)@ == Seq::<RecordView>::empty(),
            },
            final(self).store() == old(self).store(),
    {
        match stored {
            StoredCache::Empty => {},
            StoredCache::Records(v) => {
                self.replace_from(v);
            },
            StoredCache::Malformed => {
                self.replace_from(Vec::new());
                proof {
                    assert(self@ =~= Seq::<RecordView>::empty());
                }
            },
        }
    }

    /// The text to write to the store; `None` for an empty cache, which is
    /// never written so that it cannot wipe a stored one.
    pub fn to_store_text(&self) -> (r: Option<String>)
        ensures
            self@.len() == 0 <==> r is None,
            r matches Some(t) ==> t@ == records_json(self@),
    {
        if self.extensions.len() == 0 {
            return None;
        }
        let ghost items = self@.map_values(|r: RecordView| record_json(r));
        let mut t = String::new();
        t.append("[");
        let mut i: usize = 0;
        while i < self.extensions.len()
            invariant
                i <= self.extensions.len(),
                items.len() == self.extensions.len(),
                items == self@.map_values(|r: RecordView| record_json(r)),
                self@ == records_view(self.extensions@),
                t@ == "["@ + joined(items.take(i as int)),
            decreases self.extensions.len() - i,
        {
            let item = record_to_json(&self.extensions[i]);
            append_item(&mut t, Ghost(items), i, item.as_str());
            i = i + 1;
        }
        close_array(&mut t, Ghost(items));
        Some(t)
    }

    /// Position of the record that stands for extension `name`: the last
    /// record of that name.
    pub fn find(&self, name: &String) -> (r: Option<usize>)
        ensures
            r matches Some(i) ==> record_of(self@, name@) == Some(i as int) && i < self@.len(),
            r is None ==> record_of(self@, name@) is None,
    {
        let mut i = self.extensions.len();
        while i > 0
            invariant
                i <= self.extensions.len(),
                self@ == records_view(self.extensions@),
                record_of(self@, name@) == last_record_in(self@, name@, i as int),
            decreases i,
        {
            if self.extensions[i - 1].name == *name {
                return Some(i - 1);
            }
            i = i - 1;
        }
        None
    }
}

} // verus!
