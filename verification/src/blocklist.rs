//! Blocklists: reading them, and matching names against them.
//!
//! Lists come in the format of a hosts file (`0.0.0.0 ads.example.com`), with one
//! domain per line, or in that of ad blockers (`||ads.example.com^`, and
//! `@@||ads.example.com^` for an exception). An entry that starts with `*.` covers
//! what lies below a domain, and not the domain itself; a rule of an ad blocker covers
//! both. Rules of ad blockers that say more than a domain are skipped.

use crate::addr::IpAddr;
use crate::number;
use crate::text;
use crate::text::Class;
use vstd::hash_map::StringHashMap;
use vstd::hash_set::StringHashSet;
use vstd::prelude::*;
use vstd::slice::{slice_subrange, slice_to_vec};

verus! {

/// The place of a list in the table of sources.
pub type SourceId = u16;

/// A list that contributed entries, and how many of them it was the first to have.
#[derive(Debug)]
pub struct SourceStat {
    pub name: String,
    pub entries: usize,
}

/// The names that are blocked and the names that are always allowed.
pub struct Names {
    /// Blocked names, and the list that each came from.
    exact: StringHashMap<SourceId>,
    /// Domains below which every name is blocked.
    wildcards: StringHashMap<SourceId>,
    /// Domains that are blocked, and every name below them.
    whole: StringHashMap<SourceId>,
    /// Names that are allowed, whatever the fields above say.
    allow: StringHashSet,
    /// Domains below which every name is allowed.
    allow_wildcards: StringHashSet,
    /// Domains that are allowed, and every name below them.
    allow_whole: StringHashSet,
}

/// The matcher, and the lists that it was made from.
pub struct Blocklist {
    pub names: Names,
    /// The table of sources.
    pub sources: Vec<SourceStat>,
}

/// The model of a source.
#[verifier::ext_equal]
pub struct SourceView {
    pub name: Seq<char>,
    pub entries: usize,
}

/// The model of the names that are blocked or allowed.
#[verifier::ext_equal]
pub struct NamesView {
    pub exact: Map<Seq<char>, SourceId>,
    pub wildcards: Map<Seq<char>, SourceId>,
    pub whole: Map<Seq<char>, SourceId>,
    pub allow: Set<Seq<char>>,
    pub allow_wildcards: Set<Seq<char>>,
    pub allow_whole: Set<Seq<char>>,
}

/// The model of a blocklist.
#[verifier::ext_equal]
pub struct BlocklistView {
    pub exact: Map<Seq<char>, SourceId>,
    pub wildcards: Map<Seq<char>, SourceId>,
    pub whole: Map<Seq<char>, SourceId>,
    pub allow: Set<Seq<char>>,
    pub allow_wildcards: Set<Seq<char>>,
    pub allow_whole: Set<Seq<char>>,
    pub sources: Seq<SourceView>,
}

/// A list entry in canonical form: a domain in lower case, and whether the entry is
/// about it, about what lies below it, or about both.
pub enum Entry {
    Exact(String),
    Wildcard(String),
    Whole(String),
}

/// The model of a list entry.
#[verifier::ext_equal]
pub enum EntryView {
    Exact(Seq<char>),
    Wildcard(Seq<char>),
    Whole(Seq<char>),
}

impl View for Entry {
    type V = EntryView;

    open spec fn view(&self) -> EntryView {
        match self {
            Entry::Exact(d) => EntryView::Exact(d@),
            Entry::Wildcard(d) => EntryView::Wildcard(d@),
            Entry::Whole(d) => EntryView::Whole(d@),
        }
    }
}

/// What a list says: a name of a hosts line, or the one word that a line is made of.
#[verifier::ext_equal]
pub enum RuleView {
    Name(Seq<char>),
    Line(Seq<char>),
}

/// What a list does to names: it blocks them, or always allows them.
#[verifier::ext_equal]
pub enum EffectView {
    Block(EntryView),
    Allow(EntryView),
}

/// The characters of a label of a domain.
pub open spec fn label_char(c: char) -> bool {
    'a' <= c <= 'z' || 'A' <= c <= 'Z' || '0' <= c <= '9' || c == '-' || c == '_'
}

/// A label of a domain: at most 63 of those characters, and at least one.
pub open spec fn is_label(s: Seq<char>) -> bool {
    0 < s.len() <= 63 && forall|i: int| 0 <= i < s.len() ==> label_char(#[trigger] s[i])
}

/// A domain: at least two labels between dots, at most 253 characters, and not an
/// internet address.
pub open spec fn is_domain(s: Seq<char>) -> bool {
    let labels = text::split(s, Class::Is('.'));
    &&& s.len() <= 253
    &&& labels.len() >= 2
    &&& forall|i: int| 0 <= i < labels.len() ==> is_label(#[trigger] labels[i])
    &&& IpAddr::written_by(s) is None
}

/// The canonical form of a list entry: white space around it and dots at its end
/// are dropped, and letters are in lower case. There is none if what is left, after
/// `*.` if it starts with that, is not a domain.
pub open spec fn canonical(entry: Seq<char>) -> Option<EntryView> {
    let e = text::lower(text::trim_end(text::trim(entry, Class::White), Class::Is('.')));
    if e.len() >= 2 && e[0] == '*' && e[1] == '.' {
        if is_domain(e.skip(2)) {
            Some(EntryView::Wildcard(e.skip(2)))
        } else {
            None
        }
    } else if is_domain(e) {
        Some(EntryView::Exact(e))
    } else {
        None
    }
}

fn check_label(s: &[char]) -> (r: bool)
    ensures
        r == is_label(s@),
{
    if s.len() == 0 || s.len() > 63 {
        return false;
    }
    let mut i: usize = 0;
    while i < s.len()
        invariant
            i <= s@.len(),
            forall|j: int| 0 <= j < i ==> label_char(#[trigger] s@[j]),
        decreases s@.len() - i,
    {
        let c = s[i];
        if !(('a' <= c && c <= 'z') || ('A' <= c && c <= 'Z') || ('0' <= c && c <= '9') || c == '-'
            || c == '_') {
            return false;
        }
        i += 1;
    }
    true
}

fn check_domain(s: &[char]) -> (r: bool)
    ensures
        r == is_domain(s@),
{
    if s.len() > 253 {
        return false;
    }
    let labels = text::parts_of(s, Class::Is('.'));
    let ghost want = text::split(s@, Class::Is('.'));
    assert(want.len() == labels@.len());
    if labels.len() < 2 {
        return false;
    }
    let mut i: usize = 0;
    while i < labels.len()
        invariant
            i <= labels@.len(),
            text::texts(labels@) == want,
            want == text::split(s@, Class::Is('.')),
            forall|j: int| 0 <= j < i ==> is_label(#[trigger] want[j]),
        decreases labels@.len() - i,
    {
        assert(want[i as int] == labels@[i as int]@);
        if !check_label(labels[i].as_slice()) {
            return false;
        }
        i += 1;
    }
    IpAddr::parse(s).is_none()
}

/// Checks a list entry and puts it in canonical form, so that a malformed list
/// cannot poison the matcher.
pub fn normalize(entry: &str) -> (r: Option<Entry>)
    ensures
        match r {
            Some(e) => canonical(entry@) == Some(e@),
            None => canonical(entry@) is None,
        },
{
    let chars = text::chars_of(entry);
    let bare = text::strip_end(text::strip(chars.as_slice(), Class::White), Class::Is('.'));
    let e = text::lowered(bare);
    if e.len() >= 2 && e[0] == '*' && e[1] == '.' {
        let domain = slice_subrange(e.as_slice(), 2, e.len());
        assert(domain@ =~= e@.skip(2));
        if check_domain(domain) {
            Some(Entry::Wildcard(text::string_of(domain)))
        } else {
            None
        }
    } else if check_domain(e.as_slice()) {
        Some(Entry::Exact(text::string_of(e.as_slice())))
    } else {
        None
    }
}

/// Tells whether a text is a domain that a manual list can hold.
pub fn is_valid_domain(domain: &str) -> (r: bool)
    ensures
        r == canonical(domain@) is Some,
{
    normalize(domain).is_some()
}

/// Whether `name` lies below `domain`.
pub open spec fn under(domain: Seq<char>, name: Seq<char>) -> bool {
    exists|prefix: Seq<char>| name == #[trigger] (prefix + seq!['.']) + domain
}

/// Whether an entry is about `name`.
pub open spec fn covers(entry: EntryView, name: Seq<char>) -> bool {
    match entry {
        EntryView::Exact(d) => name == d,
        EntryView::Wildcard(d) => under(d, name),
        EntryView::Whole(d) => name == d || under(d, name),
    }
}

/// The rule of an ad blocker that a word writes: `||` before a domain and `^` after
/// it, and `@@` before that for an exception. It is given as its domain and whether it
/// is an exception. There is none if the word says more than a domain, or less.
pub open spec fn adblock(word: Seq<char>) -> Option<(Seq<char>, bool)> {
    let except = word.len() >= 2 && word[0] == '@' && word[1] == '@';
    let rule = if except {
        word.skip(2)
    } else {
        word
    };
    let domain = text::lower(rule.subrange(2, rule.len() - 1));
    if rule.len() >= 3 && rule[0] == '|' && rule[1] == '|' && rule.last() == '^' && is_domain(
        domain,
    ) {
        Some((domain, except))
    } else {
        None
    }
}

/// What a word does to names in a list that blocks, or in one that allows.
pub open spec fn word_effect(word: Seq<char>, allow: bool) -> Option<EffectView> {
    match canonical(word) {
        Some(e) => Some(
            if allow {
                EffectView::Allow(e)
            } else {
                EffectView::Block(e)
            },
        ),
        None => None,
    }
}

/// What a rule does to names in a list that blocks, or in one that allows. An
/// exception allows in either.
pub open spec fn effect(rule: RuleView, allow: bool) -> Option<EffectView> {
    match rule {
        RuleView::Name(w) => word_effect(w, allow),
        RuleView::Line(w) => match adblock(w) {
            Some((d, except)) => Some(
                if allow || except {
                    EffectView::Allow(EntryView::Whole(d))
                } else {
                    EffectView::Block(EntryView::Whole(d))
                },
            ),
            None => word_effect(w, allow),
        },
    }
}

/// The value of the closest domain above `name` that the map holds.
pub open spec fn closest<V>(m: Map<Seq<char>, V>, name: Seq<char>) -> Option<V>
    decreases name.len(),
    via closest_decreases::<V>
{
    let i = text::find(name, Class::Is('.'));
    let parent = name.skip(i + 1);
    if i >= name.len() || parent.len() == 0 {
        None
    } else if m.contains_key(parent) {
        Some(m[parent])
    } else {
        closest(m, parent)
    }
}

#[via_fn]
proof fn closest_decreases<V>(m: Map<Seq<char>, V>, name: Seq<char>) {
    text::lemma_find(name, Class::Is('.'));
}

/// Whether some domain above `name` is in the set.
pub open spec fn below(s: Set<Seq<char>>, name: Seq<char>) -> bool
    decreases name.len(),
    via below_decreases
{
    let i = text::find(name, Class::Is('.'));
    let parent = name.skip(i + 1);
    if i >= name.len() || parent.len() == 0 {
        false
    } else {
        s.contains(parent) || below(s, parent)
    }
}

#[via_fn]
proof fn below_decreases(s: Set<Seq<char>>, name: Seq<char>) {
    text::lemma_find(name, Class::Is('.'));
}

/// The smaller of a number and the largest `usize`.
pub open spec fn capped(n: int) -> usize {
    if n > usize::MAX {
        usize::MAX
    } else {
        n as usize
    }
}

/// By how much `after` exceeds `before`.
pub open spec fn gained(before: usize, after: usize) -> usize {
    if after > before {
        (after - before) as usize
    } else {
        0
    }
}

/// How many entries the sources were the first to have, all together.
pub open spec fn total(sources: Seq<SourceView>) -> int
    decreases sources.len(),
{
    if sources.len() == 0 {
        0
    } else {
        total(sources.drop_last()) + sources.last().entries
    }
}

impl BlocklistView {
    /// Nothing is blocked and nothing is allowed.
    pub open spec fn empty() -> BlocklistView {
        BlocklistView {
            exact: Map::empty(),
            wildcards: Map::empty(),
            whole: Map::empty(),
            allow: Set::empty(),
            allow_wildcards: Set::empty(),
            allow_whole: Set::empty(),
            sources: seq![],
        }
    }

    /// No list stands in the table of sources twice, every blocked name has a list
    /// in it, nothing but domains is blocked or allowed, there are finitely many of
    /// them, and the sources are not said to have had more entries than there are.
    pub open spec fn wf(self) -> bool {
        &&& forall|i: int, j: int|
            0 <= i < j < self.sources.len() ==> (#[trigger] self.sources[i]).name != (
            #[trigger] self.sources[j]).name
        &&& forall|d: Seq<char>| #[trigger]
            self.exact.contains_key(d) ==> self.exact[d] < self.sources.len()
        &&& forall|d: Seq<char>| #[trigger]
            self.wildcards.contains_key(d) ==> self.wildcards[d] < self.sources.len()
        &&& forall|d: Seq<char>| #[trigger]
            self.whole.contains_key(d) ==> self.whole[d] < self.sources.len()
        &&& self.sources.len() <= u16::MAX
        &&& forall|d: Seq<char>| #[trigger] self.exact.contains_key(d) ==> is_domain(d)
        &&& forall|d: Seq<char>| #[trigger] self.wildcards.contains_key(d) ==> is_domain(d)
        &&& forall|d: Seq<char>| #[trigger] self.whole.contains_key(d) ==> is_domain(d)
        &&& forall|d: Seq<char>| #[trigger] self.allow.contains(d) ==> is_domain(d)
        &&& forall|d: Seq<char>| #[trigger] self.allow_wildcards.contains(d) ==> is_domain(d)
        &&& forall|d: Seq<char>| #[trigger] self.allow_whole.contains(d) ==> is_domain(d)
        &&& self.finite()
        &&& total(self.sources) <= self.blocked_count()
    }

    /// There are finitely many entries.
    pub open spec fn finite(self) -> bool {
        &&& self.exact.dom().finite()
        &&& self.wildcards.dom().finite()
        &&& self.whole.dom().finite()
        &&& self.allow.finite()
        &&& self.allow_wildcards.finite()
        &&& self.allow_whole.finite()
    }

    /// The number of entries that block.
    pub open spec fn blocked_count(self) -> usize {
        capped((self.exact.len() + self.wildcards.len() + self.whole.len()) as int)
    }

    /// The number of entries that allow.
    pub open spec fn allowed_count(self) -> usize {
        capped((self.allow.len() + self.allow_wildcards.len() + self.allow_whole.len()) as int)
    }

    /// The domains below which every name is blocked.
    pub open spec fn above(self) -> Map<Seq<char>, SourceId> {
        self.whole.union_prefer_right(self.wildcards)
    }

    /// The domains below which every name is allowed.
    pub open spec fn allow_above(self) -> Set<Seq<char>> {
        self.allow_wildcards.union(self.allow_whole)
    }

    /// Whether `name` is always allowed.
    pub open spec fn allows(self, name: Seq<char>) -> bool {
        self.allow.contains(name) || self.allow_whole.contains(name) || below(
            self.allow_above(),
            name,
        )
    }

    /// The list by which `name` is blocked: of the name itself, else of the closest
    /// domain above it that has an entry.
    pub open spec fn verdict(self, name: Seq<char>) -> Option<Seq<char>> {
        if self.allows(name) {
            None
        } else if self.exact.contains_key(name) {
            Some(self.sources[self.exact[name] as int].name)
        } else if self.whole.contains_key(name) {
            Some(self.sources[self.whole[name] as int].name)
        } else {
            match closest(self.above(), name) {
                Some(id) => Some(self.sources[id as int].name),
                None => None,
            }
        }
    }

    /// Whether an entry is blocked, or allowed.
    pub open spec fn has(self, e: EffectView) -> bool {
        match e {
            EffectView::Block(EntryView::Exact(d)) => self.exact.contains_key(d),
            EffectView::Block(EntryView::Wildcard(d)) => self.wildcards.contains_key(d),
            EffectView::Block(EntryView::Whole(d)) => self.whole.contains_key(d),
            EffectView::Allow(EntryView::Exact(d)) => self.allow.contains(d),
            EffectView::Allow(EntryView::Wildcard(d)) => self.allow_wildcards.contains(d),
            EffectView::Allow(EntryView::Whole(d)) => self.allow_whole.contains(d),
        }
    }

    /// The place of `name` in the table of sources, or the length of the table.
    pub open spec fn position(self, name: Seq<char>) -> int {
        source_position(self.sources, name)
    }

    /// The blocklist with `name` in its table of sources. A table that is full
    /// stays as it is.
    pub open spec fn interned(self, name: Seq<char>) -> BlocklistView {
        if self.position(name) < self.sources.len() || self.sources.len() >= u16::MAX {
            self
        } else {
            BlocklistView {
                sources: self.sources.push(SourceView { name, entries: 0 }),
                ..self
            }
        }
    }

    /// The place that `name` gets in the table of sources. In a full table, names
    /// that are not there share the last place.
    pub open spec fn interned_id(self, name: Seq<char>) -> SourceId {
        if self.position(name) < self.sources.len() {
            self.position(name) as u16
        } else if self.sources.len() >= u16::MAX {
            (u16::MAX - 1) as u16
        } else {
            self.sources.len() as u16
        }
    }

    /// The blocklist with one more entry that is blocked for the list `id`. The first
    /// list to have an entry keeps it.
    pub open spec fn with_blocked(self, entry: EntryView, id: SourceId) -> BlocklistView {
        match entry {
            EntryView::Exact(d) => if self.exact.contains_key(d) {
                self
            } else {
                BlocklistView { exact: self.exact.insert(d, id), ..self }
            },
            EntryView::Wildcard(d) => if self.wildcards.contains_key(d) {
                self
            } else {
                BlocklistView { wildcards: self.wildcards.insert(d, id), ..self }
            },
            EntryView::Whole(d) => if self.whole.contains_key(d) {
                self
            } else {
                BlocklistView { whole: self.whole.insert(d, id), ..self }
            },
        }
    }

    /// The blocklist with one more entry that is always allowed.
    pub open spec fn with_allowed(self, entry: EntryView) -> BlocklistView {
        match entry {
            EntryView::Exact(d) => BlocklistView { allow: self.allow.insert(d), ..self },
            EntryView::Wildcard(d) => BlocklistView {
                allow_wildcards: self.allow_wildcards.insert(d),
                ..self
            },
            EntryView::Whole(d) => BlocklistView {
                allow_whole: self.allow_whole.insert(d),
                ..self
            },
        }
    }

    /// The blocklist with one more word of the list `id`.
    pub open spec fn blocking(self, word: Seq<char>, id: SourceId) -> BlocklistView {
        match canonical(word) {
            Some(e) => self.with_blocked(e, id),
            None => self,
        }
    }

    /// The blocklist with one more word that is always allowed.
    pub open spec fn allowing(self, word: Seq<char>) -> BlocklistView {
        match canonical(word) {
            Some(e) => self.with_allowed(e),
            None => self,
        }
    }

    /// The blocklist with one more rule of the list `id`, or of one that allows.
    pub open spec fn taking(self, rule: RuleView, id: SourceId, allow: bool) -> BlocklistView {
        match effect(rule, allow) {
            Some(EffectView::Block(e)) => self.with_blocked(e, id),
            Some(EffectView::Allow(e)) => self.with_allowed(e),
            None => self,
        }
    }

    /// The blocklist with more rules, of the list `id` or of one that allows.
    pub open spec fn with_rules(
        self,
        rules: Seq<RuleView>,
        id: SourceId,
        allow: bool,
    ) -> BlocklistView
        decreases rules.len(),
    {
        if rules.len() == 0 {
            self
        } else {
            self.with_rules(rules.drop_last(), id, allow).taking(rules.last(), id, allow)
        }
    }

    /// The blocklist with `n` more entries counted for the list `id`.
    pub open spec fn credited(self, id: SourceId, n: usize) -> BlocklistView {
        if id < self.sources.len() {
            let s = self.sources[id as int];
            BlocklistView {
                sources: self.sources.update(
                    id as int,
                    SourceView { entries: capped(s.entries + n), ..s },
                ),
                ..self
            }
        } else {
            self
        }
    }

    /// The blocklist after reading the list `name`, and the number of entries that
    /// were new.
    pub open spec fn ingested(self, contents: Seq<char>, name: Seq<char>, allow: bool) -> (
        BlocklistView,
        usize,
    ) {
        let rules = list_rules(contents);
        if allow {
            let after = self.with_rules(rules, 0, true);
            (after, gained(self.allowed_count(), after.allowed_count()))
        } else {
            let id = self.interned_id(name);
            let after = self.interned(name).with_rules(rules, id, false);
            let added = gained(self.blocked_count(), after.blocked_count());
            (after.credited(id, added), added)
        }
    }
}

/// The place of `name` in a table of sources, or the length of the table.
pub open spec fn source_position(sources: Seq<SourceView>, name: Seq<char>) -> int
    decreases sources.len(),
{
    if sources.len() == 0 || sources[0].name == name {
        0
    } else {
        1 + source_position(sources.drop_first(), name)
    }
}

/// Whether a line of a hosts file starts with `s`: an address that leads nowhere.
pub open spec fn hosts_marker(s: Seq<char>) -> bool {
    s == "0.0.0.0"@ || s == "127.0.0.1"@ || s == "::"@ || s == "::1"@ || s == "0.0.0.0.0"@
}

/// The names of a hosts file that are about the machine itself.
pub open spec fn local_name(s: Seq<char>) -> bool {
    let l = text::lower(s);
    l == "localhost"@ || l == "localhost.localdomain"@ || l == "broadcasthost"@
}

/// The names that are not about the machine itself.
pub open spec fn without_local(names: Seq<Seq<char>>) -> Seq<Seq<char>>
    decreases names.len(),
{
    if names.len() == 0 {
        seq![]
    } else if local_name(names.last()) {
        without_local(names.drop_last())
    } else {
        without_local(names.drop_last()).push(names.last())
    }
}

/// The names of a hosts line as rules.
pub open spec fn names(v: Seq<Seq<char>>) -> Seq<RuleView> {
    v.map_values(|w: Seq<char>| RuleView::Name(w))
}

/// The rules of a line: the names after the address of a hosts line, or the one word
/// that the line is made of. What follows `#` or `!` is a comment.
pub open spec fn line_rules(line: Seq<char>) -> Seq<RuleView> {
    let f = text::fields(
        text::trim(line.take(text::find(line, Class::Comment)), Class::White),
    );
    if f.len() == 0 {
        seq![]
    } else if hosts_marker(f[0]) {
        names(without_local(f.drop_first()))
    } else if f.len() == 1 {
        seq![RuleView::Line(f[0])]
    } else {
        seq![]
    }
}

/// The rules of some lines.
pub open spec fn rules_of_lines(lines: Seq<Seq<char>>) -> Seq<RuleView>
    decreases lines.len(),
{
    if lines.len() == 0 {
        seq![]
    } else {
        rules_of_lines(lines.drop_last()) + line_rules(lines.last())
    }
}

/// The rules of a list.
pub open spec fn list_rules(contents: Seq<char>) -> Seq<RuleView> {
    rules_of_lines(text::lines(contents))
}

enum Rule {
    Name(Vec<char>),
    Line(Vec<char>),
}

impl Rule {
    spec fn view(&self) -> RuleView {
        match self {
            Rule::Name(w) => RuleView::Name(w@),
            Rule::Line(w) => RuleView::Line(w@),
        }
    }
}

spec fn rules(v: Seq<Rule>) -> Seq<RuleView> {
    v.map_values(|r: Rule| r@)
}

fn is_hosts_marker(s: &[char]) -> (r: bool)
    ensures
        r == hosts_marker(s@),
{
    text::is_text(s, "0.0.0.0") || text::is_text(s, "127.0.0.1") || text::is_text(s, "::")
        || text::is_text(s, "::1") || text::is_text(s, "0.0.0.0.0")
}

fn is_local_name(s: &[char]) -> (r: bool)
    ensures
        r == local_name(s@),
{
    let l = text::lowered(s);
    text::is_text(l.as_slice(), "localhost") || text::is_text(
        l.as_slice(),
        "localhost.localdomain",
    ) || text::is_text(l.as_slice(), "broadcasthost")
}

fn read_adblock(word: &[char]) -> (r: Option<(String, bool)>)
    ensures
        match r {
            Some((d, except)) => adblock(word@) == Some((d@, except)),
            None => adblock(word@) is None,
        },
{
    let except = word.len() >= 2 && word[0] == '@' && word[1] == '@';
    let rule: &[char] = if except {
        slice_subrange(word, 2, word.len())
    } else {
        word
    };
    assert(except ==> rule@ =~= word@.skip(2));
    if rule.len() < 3 || rule[0] != '|' || rule[1] != '|' || rule[rule.len() - 1] != '^' {
        return None;
    }
    let domain = text::lowered(slice_subrange(rule, 2, rule.len() - 1));
    if check_domain(domain.as_slice()) {
        Some((text::string_of(domain.as_slice()), except))
    } else {
        None
    }
}

fn rules_of(line: &[char]) -> (r: Vec<Rule>)
    ensures
        rules(r@) == line_rules(line@),
{
    let end: usize = text::scan(line, Class::Comment, 0);
    let kept = slice_subrange(line, 0, end);
    proof {
        assert(line@.skip(0) =~= line@);
        assert(kept@ =~= line@.take(end as int));
    }
    let fields = text::fields_of(text::strip(kept, Class::White));
    let ghost f = text::texts(fields@);
    assert(f.len() == fields@.len());
    let mut out: Vec<Rule> = Vec::new();
    assert(rules(out@) =~= seq![]);
    if fields.len() == 0 {
        return out;
    }
    assert(f[0] == fields@[0]@);
    if !is_hosts_marker(fields[0].as_slice()) {
        if fields.len() == 1 {
            out.push(Rule::Line(slice_to_vec(fields[0].as_slice())));
            assert(rules(out@) =~= line_rules(line@));
        }
        return out;
    }
    let ghost all = f.drop_first();
    let mut i: usize = 1;
    assert(all.take(0) =~= seq![]);
    assert(rules(out@) =~= names(without_local(all.take(0))));
    while i < fields.len()
        invariant
            1 <= i <= fields@.len(),
            f == text::texts(fields@),
            all == f.drop_first(),
            rules(out@) == names(without_local(all.take(i - 1))),
        decreases fields@.len() - i,
    {
        let ghost before = out@;
        let ghost kept = without_local(all.take(i - 1));
        proof {
            assert(all.take(i as int).drop_last() =~= all.take(i - 1));
            assert(all.take(i as int).last() == fields@[i as int]@);
        }
        if !is_local_name(fields[i].as_slice()) {
            out.push(Rule::Name(slice_to_vec(fields[i].as_slice())));
            assert(rules(out@) =~= rules(before).push(RuleView::Name(fields@[i as int]@)));
            assert(rules(out@) =~= names(kept.push(fields@[i as int]@)));
        }
        i += 1;
    }
    assert(all.take(i - 1) =~= all);
    out
}

impl SourceStat {
    /// The model.
    pub open spec fn view(&self) -> SourceView {
        SourceView { name: self.name@, entries: self.entries }
    }
}

/// What characterises the place of a name.
pub proof fn lemma_source_position(sources: Seq<SourceView>, name: Seq<char>)
    ensures
        0 <= source_position(sources, name) <= sources.len(),
        source_position(sources, name) < sources.len() ==> sources[source_position(
            sources,
            name,
        )].name == name,
        forall|j: int|
            0 <= j < source_position(sources, name) ==> (#[trigger] sources[j]).name != name,
    decreases sources.len(),
{
    if sources.len() > 0 && sources[0].name != name {
        lemma_source_position(sources.drop_first(), name);
        assert forall|j: int| 0 <= j < source_position(sources, name) implies (
        #[trigger] sources[j]).name != name by {
            if j > 0 {
                assert(sources.drop_first()[j - 1] == sources[j]);
            }
        }
    }
}

proof fn lemma_source_position_unique(sources: Seq<SourceView>, name: Seq<char>, i: int)
    requires
        0 <= i <= sources.len(),
        i < sources.len() ==> sources[i].name == name,
        forall|j: int| 0 <= j < i ==> (#[trigger] sources[j]).name != name,
    ensures
        i == source_position(sources, name),
{
    lemma_source_position(sources, name);
    let p = source_position(sources, name);
    if p < i {
        assert(sources[p].name != name);
    } else if i < p {
        assert(sources[i].name != name);
    }
}

/// The number of elements of a map or a set never shrinks when elements are added.
proof fn lemma_count_grows<V>(a: Map<Seq<char>, V>, b: Map<Seq<char>, V>)
    requires
        a.dom().subset_of(b.dom()),
        b.dom().finite(),
    ensures
        a.len() <= b.len(),
{
    vstd::set_lib::lemma_len_subset(a.dom(), b.dom());
}

/// Whether everything that is blocked or allowed in one blocklist is in another, for
/// the same lists.
pub open spec fn grown(b: BlocklistView, after: BlocklistView) -> bool {
    &&& b.exact.submap_of(after.exact)
    &&& b.wildcards.submap_of(after.wildcards)
    &&& b.whole.submap_of(after.whole)
    &&& b.allow.subset_of(after.allow)
    &&& b.allow_wildcards.subset_of(after.allow_wildcards)
    &&& b.allow_whole.subset_of(after.allow_whole)
}

proof fn lemma_counts_grow(b: BlocklistView, after: BlocklistView)
    requires
        grown(b, after),
        after.finite(),
    ensures
        b.blocked_count() <= after.blocked_count(),
        b.allowed_count() <= after.allowed_count(),
{
    lemma_submap_dom(b.exact, after.exact);
    lemma_submap_dom(b.wildcards, after.wildcards);
    lemma_submap_dom(b.whole, after.whole);
    lemma_count_grows(b.exact, after.exact);
    lemma_count_grows(b.wildcards, after.wildcards);
    lemma_count_grows(b.whole, after.whole);
    vstd::set_lib::lemma_len_subset(b.allow, after.allow);
    vstd::set_lib::lemma_len_subset(b.allow_wildcards, after.allow_wildcards);
    vstd::set_lib::lemma_len_subset(b.allow_whole, after.allow_whole);
}

proof fn lemma_submap_dom(a: Map<Seq<char>, SourceId>, b: Map<Seq<char>, SourceId>)
    requires
        a.submap_of(b),
    ensures
        a.dom().subset_of(b.dom()),
        forall|d: Seq<char>| #[trigger] a.contains_key(d) ==> b.contains_key(d) && a[d] == b[d],
{
    assert forall|d: Seq<char>| #[trigger] a.contains_key(d) implies b.contains_key(d) && a[d]
        == b[d] by {
        assert(a.dom().contains(d));
        assert(b.dom().contains(d));
    }
}

/// What one rule does.
proof fn lemma_taking(b: BlocklistView, rule: RuleView, id: SourceId, allow: bool)
    ensures
        ({
            let after = b.taking(rule, id, allow);
            &&& after.sources == b.sources
            &&& grown(b, after)
            &&& b.finite() ==> after.finite()
            &&& forall|e: EffectView| #[trigger]
                after.has(e) <==> b.has(e) || effect(rule, allow) == Some(e)
            &&& allow ==> after.exact == b.exact && after.wildcards == b.wildcards && after.whole
                == b.whole
            &&& b.wf() && (!allow ==> id < b.sources.len()) ==> after.wf()
        }),
{
    let after = b.taking(rule, id, allow);
    if b.finite() {
        lemma_counts_grow(b, after);
    }
}

/// What rules do: they take nothing away, and add what they say.
pub proof fn lemma_rules(b: BlocklistView, rs: Seq<RuleView>, id: SourceId, allow: bool)
    ensures
        ({
            let after = b.with_rules(rs, id, allow);
            &&& after.sources == b.sources
            &&& grown(b, after)
            &&& b.finite() ==> after.finite()
            &&& forall|e: EffectView| #[trigger]
                after.has(e) <==> b.has(e) || said_by(rs, allow, e)
            &&& allow ==> after.exact == b.exact && after.wildcards == b.wildcards && after.whole
                == b.whole
            &&& b.wf() && (!allow ==> id < b.sources.len()) ==> after.wf()
        }),
    decreases rs.len(),
{
    if rs.len() > 0 {
        let most = b.with_rules(rs.drop_last(), id, allow);
        let after = b.with_rules(rs, id, allow);
        lemma_rules(b, rs.drop_last(), id, allow);
        lemma_taking(most, rs.last(), id, allow);
        lemma_submap_dom(b.exact, most.exact);
        lemma_submap_dom(b.wildcards, most.wildcards);
        lemma_submap_dom(b.whole, most.whole);
        lemma_submap_dom(most.exact, after.exact);
        lemma_submap_dom(most.wildcards, after.wildcards);
        lemma_submap_dom(most.whole, after.whole);
        assert forall|e: EffectView| #[trigger] after.has(e) <==> b.has(e) || said_by(
            rs,
            allow,
            e,
        ) by {
            lemma_said_by(rs, allow, e);
            assert(most.has(e) <==> b.has(e) || said_by(rs.drop_last(), allow, e));
        }
    }
}

/// Whether one of some rules has an effect.
pub open spec fn said_by(rs: Seq<RuleView>, allow: bool, e: EffectView) -> bool {
    exists|j: int| 0 <= j < rs.len() && effect(#[trigger] rs[j], allow) == Some(e)
}

proof fn lemma_said_by(rs: Seq<RuleView>, allow: bool, e: EffectView)
    requires
        rs.len() > 0,
    ensures
        said_by(rs, allow, e) <==> said_by(rs.drop_last(), allow, e) || effect(rs.last(), allow)
            == Some(e),
{
    if said_by(rs.drop_last(), allow, e) {
        let j = choose|j: int|
            0 <= j < rs.drop_last().len() && effect(#[trigger] rs.drop_last()[j], allow) == Some(e);
        assert(effect(rs[j], allow) == Some(e));
    }
    if said_by(rs, allow, e) {
        let j = choose|j: int| 0 <= j < rs.len() && effect(#[trigger] rs[j], allow) == Some(e);
        if j < rs.len() - 1 {
            assert(rs.drop_last()[j] == rs[j]);
        }
    }
}

impl Names {
    /// The model.
    pub closed spec fn view(&self) -> NamesView {
        NamesView {
            exact: self.exact@,
            wildcards: self.wildcards@,
            whole: self.whole@,
            allow: self.allow@,
            allow_wildcards: self.allow_wildcards@,
            allow_whole: self.allow_whole@,
        }
    }
}

/// The models of sources.
pub open spec fn source_views(v: Seq<SourceStat>) -> Seq<SourceView> {
    v.map_values(|s: SourceStat| s@)
}

impl Default for Blocklist {
    fn default() -> (r: Blocklist)
        ensures
            r@ == BlocklistView::empty(),
            r@.wf(),
    {
        let r = Blocklist {
            names: Names {
                exact: StringHashMap::new(),
                wildcards: StringHashMap::new(),
                whole: StringHashMap::new(),
                allow: StringHashSet::new(),
                allow_wildcards: StringHashSet::new(),
                allow_whole: StringHashSet::new(),
            },
            sources: Vec::new(),
        };
        assert(r@ =~= BlocklistView::empty());
        r
    }
}

impl Blocklist {
    /// The model.
    pub open spec fn view(&self) -> BlocklistView {
        BlocklistView {
            exact: self.names@.exact,
            wildcards: self.names@.wildcards,
            whole: self.names@.whole,
            allow: self.names@.allow,
            allow_wildcards: self.names@.allow_wildcards,
            allow_whole: self.names@.allow_whole,
            sources: source_views(self.sources@),
        }
    }

    /// The number of entries that block.
    pub fn len(&self) -> (r: usize)
        ensures
            r == self@.blocked_count(),
    {
        self.names.exact.len().saturating_add(self.names.wildcards.len()).saturating_add(
            self.names.whole.len(),
        )
    }

    /// The lists that contributed entries.
    pub fn source_stats(&self) -> (r: Vec<SourceStat>)
        ensures
            source_views(r@) == self@.sources,
    {
        let mut out: Vec<SourceStat> = Vec::new();
        let mut i: usize = 0;
        while i < self.sources.len()
            invariant
                i <= self.sources@.len(),
                out@.len() == i,
                forall|j: int| 0 <= j < i ==> (#[trigger] out@[j])@ == self.sources@[j]@,
            decreases self.sources@.len() - i,
        {
            let s = &self.sources[i];
            out.push(SourceStat { name: s.name.clone(), entries: s.entries });
            i += 1;
        }
        assert(source_views(out@) =~= self@.sources);
        out
    }

    /// The number of entries that allow.
    fn allowed_len(&self) -> (r: usize)
        ensures
            r == self@.allowed_count(),
    {
        self.names.allow.len().saturating_add(self.names.allow_wildcards.len()).saturating_add(
            self.names.allow_whole.len(),
        )
    }

    /// The name of a list.
    pub fn source_name(&self, id: SourceId) -> (r: &str)
        ensures
            r@ == (if id < self@.sources.len() {
                self@.sources[id as int].name
            } else {
                "unknown"@
            }),
    {
        if (id as usize) < self.sources.len() {
            assert(self@.sources[id as int] == self.sources@[id as int]@);
            self.sources[id as usize].name.as_str()
        } else {
            "unknown"
        }
    }

    /// Puts a list in the table of sources, and tells its place.
    pub fn intern(&mut self, name: &str) -> (r: SourceId)
        requires
            old(self)@.wf(),
        ensures
            final(self)@ == old(self)@.interned(name@),
            r == old(self)@.interned_id(name@),
            final(self)@.wf(),
            r < final(self)@.sources.len(),
    {
        proof {
            lemma_interned(self@, name@);
        }
        let wanted = name.to_string();
        let n: usize = self.sources.len();
        let mut i: usize = 0;
        while i < n
            invariant
                i <= n == self.sources@.len(),
                wanted@ == name@,
                self@ == old(self)@,
                self@.sources.len() <= u16::MAX,
                self@.interned(name@).wf(),
                self@.interned_id(name@) < self@.interned(name@).sources.len(),
                forall|j: int| 0 <= j < i ==> (#[trigger] self@.sources[j]).name != name@,
            decreases n - i,
        {
            assert(self@.sources[i as int] == self.sources@[i as int]@);
            if self.sources[i].name == wanted {
                proof {
                    lemma_source_position_unique(self@.sources, name@, i as int);
                }
                return i as u16;
            }
            i += 1;
        }
        proof {
            lemma_source_position_unique(self@.sources, name@, n as int);
        }
        if n >= 0xffff {
            return 0xfffe;
        }
        self.sources.push(SourceStat { name: wanted, entries: 0 });
        proof {
            let before = old(self)@.sources;
            assert(self@.sources =~= before.push(SourceView { name: name@, entries: 0 }));
            assert(self@ =~= old(self)@.interned(name@));
        }
        n as u16
    }

    /// The list by which `domain` is blocked, if any. The name must be in lower
    /// case, without a dot at its end.
    pub fn lookup(&self, domain: &str) -> (r: Option<&str>)
        requires
            self@.wf(),
        ensures
            match r {
                Some(list) => self@.verdict(domain@) == Some(list@),
                None => self@.verdict(domain@) is None,
            },
    {
        if self.is_allowed(domain) {
            return None;
        }
        if let Some(id) = self.names.exact.get(domain) {
            assert(self@.exact.contains_key(domain@));
            return Some(self.source_name(*id));
        }
        if let Some(id) = self.names.whole.get(domain) {
            assert(self@.whole.contains_key(domain@));
            return Some(self.source_name(*id));
        }
        let name = text::chars_of(domain);
        let ghost all = closest(self@.above(), name@);
        let mut from: usize = 0;
        assert(name@.skip(0) =~= name@);
        loop
            invariant
                from <= name@.len(),
                self@.wf(),
                name@ == domain@,
                all == closest(self@.above(), name@.skip(from as int)),
                all == closest(self@.above(), name@),
                !self@.allows(domain@),
                !self@.exact.contains_key(domain@),
                !self@.whole.contains_key(domain@),
            decreases name@.len() - from,
        {
            let dot: usize = text::scan(name.as_slice(), Class::Is('.'), from);
            if dot >= name.len() || name.len() - dot == 1 {
                return None;
            }
            let ghost rest = name@.skip(from as int);
            from = dot + 1;
            assert(rest.skip(text::find(rest, Class::Is('.')) + 1) =~= name@.skip(from as int));
            let parent = text::string_of(slice_subrange(name.as_slice(), from, name.len()));
            assert(parent@ =~= name@.skip(from as int));
            if let Some(id) = self.names.wildcards.get(parent.as_str()) {
                assert(self@.wildcards.contains_key(parent@));
                return Some(self.source_name(*id));
            }
            if let Some(id) = self.names.whole.get(parent.as_str()) {
                assert(self@.whole.contains_key(parent@));
                return Some(self.source_name(*id));
            }
        }
    }

    /// Tells whether `domain` is always allowed.
    pub fn is_allowed(&self, domain: &str) -> (r: bool)
        ensures
            r == self@.allows(domain@),
    {
        if self.names.allow.contains(domain) || self.names.allow_whole.contains(domain) {
            return true;
        }
        let name = text::chars_of(domain);
        let mut from: usize = 0;
        assert(name@.skip(0) =~= name@);
        loop
            invariant
                from <= name@.len(),
                name@ == domain@,
                !self@.allow.contains(domain@),
                !self@.allow_whole.contains(domain@),
                below(self@.allow_above(), name@) == below(
                    self@.allow_above(),
                    name@.skip(from as int),
                ),
            decreases name@.len() - from,
        {
            let dot: usize = text::scan(name.as_slice(), Class::Is('.'), from);
            if dot >= name.len() || name.len() - dot == 1 {
                return false;
            }
            let ghost rest = name@.skip(from as int);
            from = dot + 1;
            assert(rest.skip(text::find(rest, Class::Is('.')) + 1) =~= name@.skip(from as int));
            let parent = text::string_of(slice_subrange(name.as_slice(), from, name.len()));
            assert(parent@ =~= name@.skip(from as int));
            if self.names.allow_wildcards.contains(parent.as_str())
                || self.names.allow_whole.contains(parent.as_str()) {
                return true;
            }
        }
    }

    fn block(&mut self, entry: Entry, source: SourceId)
        ensures
            final(self)@ == old(self)@.with_blocked(entry@, source),
    {
        let ghost e = entry@;
        match entry {
            Entry::Exact(d) => {
                if !self.names.exact.contains_key(d.as_str()) {
                    self.names.exact.insert(d, source);
                }
            },
            Entry::Wildcard(d) => {
                if !self.names.wildcards.contains_key(d.as_str()) {
                    self.names.wildcards.insert(d, source);
                }
            },
            Entry::Whole(d) => {
                if !self.names.whole.contains_key(d.as_str()) {
                    self.names.whole.insert(d, source);
                }
            },
        }
        assert(self@ =~= old(self)@.with_blocked(e, source));
    }

    fn allow(&mut self, entry: Entry)
        ensures
            final(self)@ == old(self)@.with_allowed(entry@),
    {
        let ghost e = entry@;
        match entry {
            Entry::Exact(d) => {
                let _ = self.names.allow.insert(d);
            },
            Entry::Wildcard(d) => {
                let _ = self.names.allow_wildcards.insert(d);
            },
            Entry::Whole(d) => {
                let _ = self.names.allow_whole.insert(d);
            },
        }
        assert(self@ =~= old(self)@.with_allowed(e));
    }

    /// Blocks an entry on behalf of the list `source`.
    pub fn add_block(&mut self, entry: &str, source: SourceId)
        ensures
            final(self)@ == old(self)@.blocking(entry@, source),
    {
        if let Some(e) = normalize(entry) {
            self.block(e, source);
        }
    }

    /// Always allows an entry.
    pub fn add_allow(&mut self, entry: &str)
        ensures
            final(self)@ == old(self)@.allowing(entry@),
    {
        if let Some(e) = normalize(entry) {
            self.allow(e);
        }
    }

    fn add_word(&mut self, word: &[char], source: SourceId, allow: bool)
        ensures
            final(self)@ == old(self)@.taking(RuleView::Name(word@), source, allow),
    {
        let word = text::string_of(word);
        if allow {
            self.add_allow(word.as_str());
        } else {
            self.add_block(word.as_str(), source);
        }
    }

    fn add_rule(&mut self, rule: &Rule, source: SourceId, allow: bool)
        ensures
            final(self)@ == old(self)@.taking(rule@, source, allow),
    {
        match rule {
            Rule::Name(w) => self.add_word(w.as_slice(), source, allow),
            Rule::Line(w) => match read_adblock(w.as_slice()) {
                Some((d, except)) => {
                    if allow || except {
                        self.allow(Entry::Whole(d));
                    } else {
                        self.block(Entry::Whole(d), source);
                    }
                },
                None => self.add_word(w.as_slice(), source, allow),
            },
        }
    }

    fn add_line(&mut self, line: &[char], source: SourceId, allow: bool)
        ensures
            final(self)@ == old(self)@.with_rules(line_rules(line@), source, allow),
    {
        let read = rules_of(line);
        let ghost e = rules(read@);
        let mut i: usize = 0;
        assert(e.take(0) =~= seq![]);
        while i < read.len()
            invariant
                i <= read@.len(),
                e == rules(read@),
                self@ == old(self)@.with_rules(e.take(i as int), source, allow),
            decreases read@.len() - i,
        {
            proof {
                assert(e.take(i + 1).drop_last() =~= e.take(i as int));
                assert(e.take(i + 1).last() == read@[i as int]@);
            }
            self.add_rule(&read[i], source, allow);
            i += 1;
        }
        assert(e.take(i as int) =~= e);
    }

    /// Reads a list, and tells how many of its entries were new. A list that blocks
    /// gets a place in the table of sources, where its new entries are counted; a
    /// list that allows gets none.
    pub fn ingest(&mut self, contents: &str, source_name: &str, allow: bool) -> (r: usize)
        requires
            old(self)@.wf(),
        ensures
            (final(self)@, r) == old(self)@.ingested(contents@, source_name@, allow),
            final(self)@.wf(),
            !allow ==> final(self)@.blocked_count() == old(self)@.blocked_count() + r,
            allow ==> final(self)@.allowed_count() == old(self)@.allowed_count() + r,
    {
        proof {
            lemma_ingested(self@, contents@, source_name@, allow);
        }
        let before: usize = if allow {
            self.allowed_len()
        } else {
            self.len()
        };
        let source_id: SourceId = if allow {
            0
        } else {
            self.intern(source_name)
        };
        let ghost start = self@;
        let chars = text::chars_of(contents);
        let lines = text::lines_of(chars.as_slice());
        let ghost l = text::texts(lines@);
        let mut i: usize = 0;
        assert(l.take(0) =~= seq![]);
        while i < lines.len()
            invariant
                i <= lines@.len(),
                l == text::texts(lines@),
                self@ == start.with_rules(rules_of_lines(l.take(i as int)), source_id, allow),
            decreases lines@.len() - i,
        {
            self.add_line(lines[i].as_slice(), source_id, allow);
            proof {
                assert(l.take(i + 1).drop_last() =~= l.take(i as int));
                assert(l.take(i + 1).last() == lines@[i as int]@);
                lemma_with_rules_concat(
                    start,
                    rules_of_lines(l.take(i as int)),
                    line_rules(lines@[i as int]@),
                    source_id,
                    allow,
                );
            }
            i += 1;
        }
        assert(l.take(i as int) =~= l);
        let after: usize = if allow {
            self.allowed_len()
        } else {
            self.len()
        };
        let added: usize = after.saturating_sub(before);
        if !allow && (source_id as usize) < self.sources.len() {
            let ghost was = self@;
            let total: usize = self.sources[source_id as usize].entries.saturating_add(added);
            self.sources[source_id as usize].entries = total;
            proof {
                assert(self@.sources =~= was.credited(source_id, added).sources);
                assert(self@ =~= was.credited(source_id, added));
            }
        }
        added
    }
}

/// Rules one after the other are rules all at once.
proof fn lemma_with_rules_concat(
    b: BlocklistView,
    e1: Seq<RuleView>,
    e2: Seq<RuleView>,
    id: SourceId,
    allow: bool,
)
    ensures
        b.with_rules(e1 + e2, id, allow) == b.with_rules(e1, id, allow).with_rules(e2, id, allow),
    decreases e2.len(),
{
    if e2.len() == 0 {
        assert(e1 + e2 =~= e1);
    } else {
        assert((e1 + e2).drop_last() =~= e1 + e2.drop_last());
        lemma_with_rules_concat(b, e1, e2.drop_last(), id, allow);
    }
}

/// A new place in the table of sources leaves the others as they are.
pub proof fn lemma_interned(b: BlocklistView, list: Seq<char>)
    requires
        b.wf(),
    ensures
        b.interned(list).wf(),
        b.interned_id(list) < b.interned(list).sources.len(),
        forall|i: int|
            0 <= i < b.sources.len() ==> #[trigger] b.interned(list).sources[i] == b.sources[i],
        b.sources.len() <= b.interned(list).sources.len(),
        total(b.interned(list).sources) == total(b.sources),
{
    lemma_source_position(b.sources, list);
    let s = b.interned(list).sources;
    if s.len() > b.sources.len() {
        assert(s.drop_last() =~= b.sources);
    }
    assert forall|x: int, y: int| 0 <= x < y < s.len() implies (#[trigger] s[x]).name != (
    #[trigger] s[y]).name by {
        if y < b.sources.len() {
            assert(b.sources[x].name != b.sources[y].name);
        } else {
            assert(b.sources[x].name != list);
        }
    }
}

proof fn lemma_total_update(s: Seq<SourceView>, i: int, x: SourceView)
    requires
        0 <= i < s.len(),
    ensures
        0 <= s[i].entries <= total(s),
        total(s.update(i, x)) == total(s) - s[i].entries + x.entries,
    decreases s.len(),
{
    lemma_total_positive(s.drop_last());
    if i == s.len() - 1 {
        assert(s.update(i, x).drop_last() =~= s.drop_last());
    } else {
        assert(s.update(i, x).drop_last() =~= s.drop_last().update(i, x));
        lemma_total_update(s.drop_last(), i, x);
    }
}

proof fn lemma_total_positive(s: Seq<SourceView>)
    ensures
        0 <= total(s),
    decreases s.len(),
{
    if s.len() > 0 {
        lemma_total_positive(s.drop_last());
    }
}

/// What reading a list does.
pub proof fn lemma_ingested(b: BlocklistView, contents: Seq<char>, list: Seq<char>, allow: bool)
    requires
        b.wf(),
    ensures
        ({
            let (after, added) = b.ingested(contents, list, allow);
            &&& after.wf()
            &&& grown(b, after)
            &&& forall|e: EffectView| #[trigger]
                after.has(e) <==> b.has(e) || said_by(list_rules(contents), allow, e)
            &&& b.sources.len() <= after.sources.len()
            &&& forall|i: int|
                0 <= i < b.sources.len() ==> (#[trigger] after.sources[i]).name == b.sources[i].name
            &&& allow ==> after.sources == b.sources && after.exact == b.exact && after.wildcards
                == b.wildcards && after.whole == b.whole
            &&& allow ==> after.allowed_count() == b.allowed_count() + added
            &&& !allow ==> after.blocked_count() == b.blocked_count() + added
            &&& !allow ==> total(after.sources) == total(b.sources) + added
        }),
{
    let rs = list_rules(contents);
    if allow {
        lemma_rules(b, rs, 0, true);
        lemma_counts_grow(b, b.with_rules(rs, 0, true));
    } else {
        let id = b.interned_id(list);
        let start = b.interned(list);
        let read = start.with_rules(rs, id, false);
        let (after, added) = b.ingested(contents, list, false);
        lemma_interned(b, list);
        lemma_rules(start, rs, id, false);
        lemma_counts_grow(start, read);
        let old = read.sources[id as int];
        let new = SourceView { entries: capped(old.entries + added), ..old };
        lemma_total_update(read.sources, id as int, new);
        assert(after.sources =~= read.sources.update(id as int, new));
        assert forall|i: int, j: int| 0 <= i < j < after.sources.len() implies (
        #[trigger] after.sources[i]).name != (#[trigger] after.sources[j]).name by {
            assert(read.sources[i].name != read.sources[j].name);
        }
        assert forall|i: int| 0 <= i < b.sources.len() implies (#[trigger] after.sources[i]).name
            == b.sources[i].name by {
            assert(start.sources[i] == b.sources[i]);
        }
        assert forall|e: EffectView| #[trigger] after.has(e) <==> b.has(e) || said_by(
            rs,
            false,
            e,
        ) by {
            assert(read.has(e) <==> start.has(e) || said_by(rs, false, e));
        }
    }
}

/// Some domain above a name is in a set if and only if the name lies below one that is.
proof fn lemma_below(s: Set<Seq<char>>, name: Seq<char>)
    requires
        forall|d: Seq<char>| #[trigger] s.contains(d) ==> d.len() > 0,
    ensures
        below(s, name) <==> exists|d: Seq<char>| #[trigger] s.contains(d) && under(d, name),
    decreases name.len(),
{
    let i = text::find(name, Class::Is('.'));
    text::lemma_find(name, Class::Is('.'));
    if below(s, name) {
        let parent = name.skip(i + 1);
        assert(name =~= (name.take(i) + seq!['.']) + parent);
        if s.contains(parent) {
            assert(under(parent, name));
        } else {
            lemma_below(s, parent);
            let d = choose|d: Seq<char>| #[trigger] s.contains(d) && under(d, parent);
            let prefix = choose|prefix: Seq<char>| parent == #[trigger] (prefix + seq!['.']) + d;
            assert(name =~= ((name.take(i) + seq!['.'] + prefix) + seq!['.']) + d);
        }
    }
    if exists|d: Seq<char>| #[trigger] s.contains(d) && under(d, name) {
        let d = choose|d: Seq<char>| #[trigger] s.contains(d) && under(d, name);
        let prefix = choose|prefix: Seq<char>| name == #[trigger] (prefix + seq!['.']) + d;
        lemma_below_covers(s, prefix, d);
    }
}

proof fn lemma_below_covers(s: Set<Seq<char>>, prefix: Seq<char>, domain: Seq<char>)
    requires
        s.contains(domain),
        domain.len() > 0,
    ensures
        below(s, prefix + seq!['.'] + domain),
    decreases prefix.len(),
{
    let name = prefix + seq!['.'] + domain;
    let i = text::find(name, Class::Is('.'));
    text::lemma_find(name, Class::Is('.'));
    let n = prefix.len() as int;
    assert(name[n] == '.');
    if i > n {
        assert(!text::member(Class::Is('.'), name[n]));
    }
    if i == n {
        assert(name.skip(i + 1) =~= domain);
    } else {
        let rest = prefix.skip(i + 1);
        assert(name.skip(i + 1) =~= rest + seq!['.'] + domain);
        lemma_below_covers(s, rest, domain);
    }
}

/// A map has a value for some domain above a name if and only if the domains of the map
/// have one above it.
proof fn lemma_closest_is_below(m: Map<Seq<char>, SourceId>, name: Seq<char>)
    ensures
        closest(m, name) is Some <==> below(m.dom(), name),
    decreases name.len(),
{
    let i = text::find(name, Class::Is('.'));
    text::lemma_find(name, Class::Is('.'));
    let parent = name.skip(i + 1);
    if i < name.len() && parent.len() > 0 && !m.contains_key(parent) {
        lemma_closest_is_below(m, parent);
    }
}

proof fn lemma_domain_is_not_empty(s: Seq<char>)
    ensures
        is_domain(s) ==> s.len() > 0,
{
    if s.len() == 0 {
        text::lemma_split_none(s, '.');
    }
}

/// Whether an entry that blocks is about a name.
pub open spec fn block_covers(b: BlocklistView, name: Seq<char>) -> bool {
    exists|e: EntryView| #[trigger] b.has(EffectView::Block(e)) && covers(e, name)
}

/// Whether an entry that allows is about a name.
pub open spec fn allow_covers(b: BlocklistView, name: Seq<char>) -> bool {
    exists|e: EntryView| #[trigger] b.has(EffectView::Allow(e)) && covers(e, name)
}

/// A name is allowed if and only if an entry that allows is about it, and blocked if and
/// only if it is not allowed and an entry that blocks is about it.
pub proof fn entries_decide(b: BlocklistView, name: Seq<char>)
    requires
        b.wf(),
    ensures
        b.allows(name) <==> allow_covers(b, name),
        b.verdict(name) is Some <==> block_covers(b, name) && !allow_covers(b, name),
{
    assert forall|d: Seq<char>| is_domain(d) implies d.len() > 0 by {
        lemma_domain_is_not_empty(d);
    }
    lemma_below(b.allow_above(), name);
    lemma_below(b.above().dom(), name);
    lemma_closest_is_below(b.above(), name);
    if b.allows(name) {
        if b.allow.contains(name) {
            assert(b.has(EffectView::Allow(EntryView::Exact(name))));
        } else if b.allow_whole.contains(name) {
            assert(b.has(EffectView::Allow(EntryView::Whole(name))));
        } else {
            let d = choose|d: Seq<char>| #[trigger] b.allow_above().contains(d) && under(d, name);
            if b.allow_wildcards.contains(d) {
                assert(b.has(EffectView::Allow(EntryView::Wildcard(d))));
            } else {
                assert(b.has(EffectView::Allow(EntryView::Whole(d))));
            }
        }
    }
    if allow_covers(b, name) {
        let e = choose|e: EntryView| #[trigger] b.has(EffectView::Allow(e)) && covers(e, name);
        match e {
            EntryView::Exact(d) => {},
            EntryView::Wildcard(d) => {
                assert(b.allow_above().contains(d));
            },
            EntryView::Whole(d) => {
                assert(b.allow_above().contains(d));
            },
        }
    }
    let hit = b.exact.contains_key(name) || b.whole.contains_key(name) || below(
        b.above().dom(),
        name,
    );
    if hit {
        if b.exact.contains_key(name) {
            assert(b.has(EffectView::Block(EntryView::Exact(name))));
        } else if b.whole.contains_key(name) {
            assert(b.has(EffectView::Block(EntryView::Whole(name))));
        } else {
            let d = choose|d: Seq<char>| #[trigger] b.above().dom().contains(d) && under(d, name);
            if b.wildcards.contains_key(d) {
                assert(b.has(EffectView::Block(EntryView::Wildcard(d))));
            } else {
                assert(b.has(EffectView::Block(EntryView::Whole(d))));
            }
        }
    }
    if block_covers(b, name) {
        let e = choose|e: EntryView| #[trigger] b.has(EffectView::Block(e)) && covers(e, name);
        match e {
            EntryView::Exact(d) => {},
            EntryView::Wildcard(d) => {
                assert(b.above().dom().contains(d));
            },
            EntryView::Whole(d) => {
                assert(b.above().dom().contains(d));
            },
        }
    }
}

/// A name that is always allowed is not blocked, whatever the lists say.
pub proof fn an_allowed_name_is_never_blocked(b: BlocklistView, name: Seq<char>)
    requires
        b.allows(name),
    ensures
        b.verdict(name) is None,
{
}

/// Reading a list that blocks allows nothing but what its exceptions are about, and
/// what was allowed stays allowed.
pub proof fn a_blocking_list_allows_only_its_exceptions(
    b: BlocklistView,
    contents: Seq<char>,
    list: Seq<char>,
    name: Seq<char>,
)
    requires
        b.wf(),
    ensures
        b.ingested(contents, list, false).0.allows(name) <==> b.allows(name) || exists|e: EntryView|
            #[trigger] said_by(list_rules(contents), false, EffectView::Allow(e)) && covers(e, name),
{
    let after = b.ingested(contents, list, false).0;
    let rs = list_rules(contents);
    lemma_ingested(b, contents, list, false);
    entries_decide(b, name);
    entries_decide(after, name);
    if b.allows(name) {
        let e = choose|e: EntryView| #[trigger] b.has(EffectView::Allow(e)) && covers(e, name);
        assert(after.has(EffectView::Allow(e)));
    }
    if exists|e: EntryView|
        #[trigger] said_by(rs, false, EffectView::Allow(e)) && covers(e, name) {
        let e = choose|e: EntryView|
            #[trigger] said_by(rs, false, EffectView::Allow(e)) && covers(e, name);
        assert(after.has(EffectView::Allow(e)));
    }
    if after.allows(name) {
        let e = choose|e: EntryView| #[trigger] after.has(EffectView::Allow(e)) && covers(e, name);
        if !said_by(rs, false, EffectView::Allow(e)) {
            assert(b.has(EffectView::Allow(e)));
        }
    }
}

/// Reading a list that allows gets it no place in the table of sources, and blocks
/// nothing that was not blocked.
pub proof fn an_allowing_list_is_no_source(
    b: BlocklistView,
    contents: Seq<char>,
    list: Seq<char>,
    name: Seq<char>,
)
    requires
        b.wf(),
    ensures
        b.ingested(contents, list, true).0.sources == b.sources,
        b.ingested(contents, list, true).0.verdict(name) is Some ==> b.verdict(name)
            == b.ingested(contents, list, true).0.verdict(name),
{
    let after = b.ingested(contents, list, true).0;
    lemma_ingested(b, contents, list, true);
    if b.allows(name) {
        lemma_allows_grows(b, after, name);
    }
}

proof fn lemma_allows_grows(b: BlocklistView, after: BlocklistView, name: Seq<char>)
    requires
        b.wf(),
        after.wf(),
        grown(b, after),
        b.allows(name),
    ensures
        after.allows(name),
{
    entries_decide(b, name);
    entries_decide(after, name);
    let e = choose|e: EntryView| #[trigger] b.has(EffectView::Allow(e)) && covers(e, name);
    assert(after.has(EffectView::Allow(e)));
}

/// The first list to have a name keeps it: reading further lists does not change
/// by which list a name that has an entry of its own is blocked. It may only be allowed.
pub proof fn the_first_list_keeps_a_name(
    b: BlocklistView,
    contents: Seq<char>,
    list: Seq<char>,
    name: Seq<char>,
)
    requires
        b.wf(),
        b.exact.contains_key(name),
    ensures
        ({
            let after = b.ingested(contents, list, false).0;
            !after.allows(name) ==> after.verdict(name) == b.verdict(name)
        }),
{
    let after = b.ingested(contents, list, false).0;
    lemma_ingested(b, contents, list, false);
    lemma_submap_dom(b.exact, after.exact);
    if b.allows(name) {
        lemma_allows_grows(b, after, name);
    }
    assert(after.sources[b.exact[name] as int].name == b.sources[b.exact[name] as int].name);
}

/// A name that is blocked stays blocked when further lists are read, unless one of them
/// allows it.
pub proof fn a_blocked_name_stays_blocked(
    b: BlocklistView,
    contents: Seq<char>,
    list: Seq<char>,
    allow: bool,
    name: Seq<char>,
)
    requires
        b.wf(),
        b.verdict(name) is Some,
    ensures
        ({
            let after = b.ingested(contents, list, allow).0;
            after.verdict(name) is Some || after.allows(name)
        }),
{
    let after = b.ingested(contents, list, allow).0;
    lemma_ingested(b, contents, list, allow);
    entries_decide(b, name);
    entries_decide(after, name);
    let e = choose|e: EntryView| #[trigger] b.has(EffectView::Block(e)) && covers(e, name);
    assert(after.has(EffectView::Block(e)));
}

/// Reading a list again adds nothing, whether it blocks or allows.
pub proof fn a_list_read_again_adds_nothing(
    b: BlocklistView,
    contents: Seq<char>,
    list: Seq<char>,
    allow: bool,
)
    requires
        b.wf(),
    ensures
        ({
            let once = b.ingested(contents, list, allow).0;
            once.ingested(contents, list, allow) == (once, 0usize)
        }),
{
    let rs = list_rules(contents);
    let once = b.ingested(contents, list, allow).0;
    lemma_ingested(b, contents, list, allow);
    assert forall|j: int| 0 <= j < rs.len() && effect(#[trigger] rs[j], allow) is Some implies
        once.has(effect(rs[j], allow)->0) by {
        assert(said_by(rs, allow, effect(rs[j], allow)->0));
    }
    if allow {
        lemma_known_rules_add_nothing(once, rs, 0, true);
    } else {
        let id = b.interned_id(list);
        let start = b.interned(list);
        lemma_interned(b, list);
        lemma_rules(start, rs, id, false);
        lemma_source_position(b.sources, list);
        lemma_same_names(start.sources, once.sources, list);
        if b.position(list) >= b.sources.len() && b.sources.len() < u16::MAX {
            assert(start.sources.drop_last() =~= b.sources);
            assert forall|j: int| 0 <= j < b.sources.len() implies (
            #[trigger] start.sources[j]).name != list by {
                assert(start.sources[j] == b.sources[j]);
            }
            lemma_source_position_unique(start.sources, list, b.sources.len() as int);
        }
        assert(once.interned_id(list) == id);
        assert(once.interned(list) == once);
        lemma_known_rules_add_nothing(once, rs, id, false);
        assert(once.credited(id, 0).sources =~= once.sources);
        assert(once.credited(id, 0) =~= once);
    }
}

/// Tables of sources with the same names have them in the same places.
proof fn lemma_same_names(a: Seq<SourceView>, b: Seq<SourceView>, list: Seq<char>)
    requires
        a.len() == b.len(),
        forall|i: int| 0 <= i < a.len() ==> (#[trigger] a[i]).name == b[i].name,
    ensures
        source_position(a, list) == source_position(b, list),
{
    lemma_source_position(a, list);
    let p = source_position(a, list);
    assert forall|j: int| 0 <= j < p implies (#[trigger] b[j]).name != list by {
        assert(a[j].name != list);
    }
    lemma_source_position_unique(b, list, p);
}

proof fn lemma_known_rules_add_nothing(
    b: BlocklistView,
    rs: Seq<RuleView>,
    id: SourceId,
    allow: bool,
)
    requires
        forall|j: int|
            0 <= j < rs.len() && effect(#[trigger] rs[j], allow) is Some ==> b.has(
                effect(rs[j], allow)->0,
            ),
    ensures
        b.with_rules(rs, id, allow) == b,
    decreases rs.len(),
{
    if rs.len() > 0 {
        let most = rs.drop_last();
        assert forall|j: int| 0 <= j < most.len() && effect(#[trigger] most[j], allow) is Some
            implies b.has(effect(most[j], allow)->0) by {
            assert(most[j] == rs[j]);
        }
        lemma_known_rules_add_nothing(b, most, id, allow);
        let last = rs[rs.len() - 1];
        assert(b.taking(last, id, allow) =~= b);
    }
}

/// Every entry that blocks was first had by exactly one list: the counts of the sources
/// add up to the number of entries, if they did before the list was read.
pub proof fn a_list_is_credited_with_what_it_adds(
    b: BlocklistView,
    contents: Seq<char>,
    list: Seq<char>,
    allow: bool,
)
    requires
        b.wf(),
        total(b.sources) == b.blocked_count(),
    ensures
        ({
            let after = b.ingested(contents, list, allow).0;
            total(after.sources) == after.blocked_count()
        }),
{
    lemma_ingested(b, contents, list, allow);
}

/// An entry for what lies below a domain says nothing of the domain itself.
pub proof fn a_wildcard_does_not_cover_its_own_domain(
    m: Map<Seq<char>, SourceId>,
    domain: Seq<char>,
    id: SourceId,
)
    ensures
        closest(m.insert(domain, id), domain) == closest(m.remove(domain), domain),
{
    assert(m.insert(domain, id).remove(domain) =~= m.remove(domain).remove(domain));
    lemma_closest_ignores_longer(m.insert(domain, id), m.remove(domain), domain, domain);
}

proof fn lemma_closest_ignores_longer(
    a: Map<Seq<char>, SourceId>,
    b: Map<Seq<char>, SourceId>,
    domain: Seq<char>,
    name: Seq<char>,
)
    requires
        a.remove(domain) == b.remove(domain),
        name.len() <= domain.len(),
    ensures
        closest(a, name) == closest(b, name),
    decreases name.len(),
{
    let i = text::find(name, Class::Is('.'));
    text::lemma_find(name, Class::Is('.'));
    if i < name.len() {
        let parent = name.skip(i + 1);
        assert(a.contains_key(parent) == a.remove(domain).contains_key(parent));
        assert(b.contains_key(parent) == b.remove(domain).contains_key(parent));
        if a.contains_key(parent) {
            assert(a.remove(domain)[parent] == a[parent]);
            assert(b.remove(domain)[parent] == b[parent]);
        }
        lemma_closest_ignores_longer(a, b, domain, parent);
    }
}

/// An entry for what lies below a domain covers every name that ends in a dot and
/// the domain.
pub proof fn a_wildcard_covers_what_lies_below(
    m: Map<Seq<char>, SourceId>,
    prefix: Seq<char>,
    domain: Seq<char>,
)
    requires
        m.contains_key(domain),
        domain.len() > 0,
    ensures
        closest(m, prefix + seq!['.'] + domain) is Some,
    decreases prefix.len(),
{
    let name = prefix + seq!['.'] + domain;
    let i = text::find(name, Class::Is('.'));
    text::lemma_find(name, Class::Is('.'));
    let n = prefix.len() as int;
    assert(name[n] == '.');
    if i > n {
        assert(!text::member(Class::Is('.'), name[n]));
    }
    if i == n {
        assert(name.skip(i + 1) =~= domain);
    } else {
        let rest = prefix.skip(i + 1);
        assert(name.skip(i + 1) =~= rest + seq!['.'] + domain);
        a_wildcard_covers_what_lies_below(m, rest, domain);
    }
}

/// A list that has been read from disk: its name, what it holds, and whether its
/// entries are allowed rather than blocked.
#[derive(Debug)]
pub struct ListText {
    pub name: String,
    pub contents: String,
    pub allow: bool,
}

/// The model of a list that has been read.
#[verifier::ext_equal]
pub struct ListView {
    pub name: Seq<char>,
    pub contents: Seq<char>,
    pub allow: bool,
}

impl View for ListText {
    type V = ListView;

    open spec fn view(&self) -> ListView {
        ListView { name: self.name@, contents: self.contents@, allow: self.allow }
    }
}

/// The models of lists that have been read.
pub open spec fn list_views(v: Seq<ListText>) -> Seq<ListView> {
    v.map_values(|l: ListText| l@)
}

/// Texts as lists that block, each with its name.
pub open spec fn blocking(v: Seq<(String, String)>) -> Seq<ListView> {
    v.map_values(
        |p: (String, String)| ListView { name: p.0@, contents: p.1@, allow: false },
    )
}

/// A manual list, if it is there.
pub open spec fn manual(list: Option<(String, String)>, allow: bool) -> Seq<ListView> {
    match list {
        Some(p) => seq![ListView { name: p.0@, contents: p.1@, allow }],
        None => seq![],
    }
}

fn push_blocking(out: &mut Vec<ListText>, lists: Vec<(String, String)>)
    ensures
        list_views(final(out)@) == list_views(old(out)@) + blocking(lists@),
{
    let ghost before = list_views(out@);
    let mut i: usize = 0;
    assert(list_views(out@) =~= before + blocking(lists@).take(0));
    while i < lists.len()
        invariant
            i <= lists@.len(),
            list_views(out@) == before + blocking(lists@).take(i as int),
        decreases lists@.len() - i,
    {
        let l = ListText { name: lists[i].0.clone(), contents: lists[i].1.clone(), allow: false };
        let ghost so_far = list_views(out@);
        out.push(l);
        i += 1;
        assert(list_views(out@) =~= so_far.push(l@));
        assert(list_views(out@) =~= before + blocking(lists@).take(i as int));
    }
    assert(blocking(lists@).take(i as int) =~= blocking(lists@));
}

/// The lists in the order in which they are read, each given as its name and its
/// contents: the downloads, the local files, then the manual lists. The first list
/// that has a name keeps it, so the manual list only claims what no other list has.
pub fn ordered(
    downloads: Vec<(String, String)>,
    files: Vec<(String, String)>,
    deny: Option<(String, String)>,
    allow: Option<(String, String)>,
) -> (r: Vec<ListText>)
    ensures
        list_views(r@) == blocking(downloads@) + blocking(files@) + manual(deny, false) + manual(
            allow,
            true,
        ),
{
    let mut out: Vec<ListText> = Vec::new();
    assert(list_views(out@) =~= seq![]);
    push_blocking(&mut out, downloads);
    push_blocking(&mut out, files);
    assert(list_views(out@) =~= blocking(downloads@) + blocking(files@));
    let ghost so_far = list_views(out@);
    if let Some((name, contents)) = deny {
        out.push(ListText { name, contents, allow: false });
    }
    assert(list_views(out@) =~= so_far + manual(deny, false));
    let ghost so_far = list_views(out@);
    if let Some((name, contents)) = allow {
        out.push(ListText { name, contents, allow: true });
    }
    assert(list_views(out@) =~= so_far + manual(allow, true));
    out
}

/// The blocklist after reading some lists, the first one first.
pub open spec fn built(lists: Seq<ListText>) -> BlocklistView
    decreases lists.len(),
{
    if lists.len() == 0 {
        BlocklistView::empty()
    } else {
        let l = lists.last();
        built(lists.drop_last()).ingested(l.contents@, l.name@, l.allow).0
    }
}

/// Builds the matcher from the lists that could be read: the cached downloads, the
/// local files, and the manual lists. With blocking switched off it is empty.
pub fn build(enabled: bool, lists: &[ListText]) -> (r: Blocklist)
    ensures
        r@.wf(),
        r@ == (if enabled {
            built(lists@)
        } else {
            BlocklistView::empty()
        }),
{
    let mut bl = Blocklist::default();
    if !enabled {
        return bl;
    }
    let mut i: usize = 0;
    assert(lists@.take(0) =~= seq![]);
    while i < lists.len()
        invariant
            i <= lists@.len(),
            bl@.wf(),
            bl@ == built(lists@.take(i as int)),
        decreases lists@.len() - i,
    {
        let l = &lists[i];
        let _ = bl.ingest(l.contents.as_str(), l.name.as_str(), l.allow);
        i += 1;
        assert(lists@.take(i as int).drop_last() =~= lists@.take(i - 1));
    }
    assert(lists@.take(i as int) =~= lists@);
    bl
}

/// A domain as a manual list holds it.
pub open spec fn manual_form(domain: Seq<char>) -> Seq<char> {
    text::lower(text::trim(domain, Class::White))
}

/// Whether a line of a manual list is the given domain.
pub open spec fn listed(contents: Seq<char>, domain: Seq<char>) -> bool {
    exists|i: int|
        0 <= i < text::lines(contents).len() && text::trim(
            #[trigger] text::lines(contents)[i],
            Class::White,
        ) == domain
}

fn manual_text(domain: &str) -> (r: Vec<char>)
    ensures
        r@ == manual_form(domain@),
{
    let chars = text::chars_of(domain);
    text::lowered(text::strip(chars.as_slice(), Class::White))
}

/// What is appended to a list that holds `existing` so that it has one more line: the
/// line, after a line feed if the last line of the list is not complete.
pub open spec fn appended(existing: Seq<char>, line: Seq<char>) -> Seq<char> {
    (if existing.len() > 0 && existing.last() != '\n' {
        seq!['\n']
    } else {
        seq![]
    }) + line.push('\n')
}

/// The text of a list that may be missing.
pub open spec fn text_of_list(existing: Option<&str>) -> Seq<char> {
    match existing {
        Some(s) => s@,
        None => seq![],
    }
}

/// What to append to a manual list that holds `existing` so that it has `domain`:
/// nothing if it has. What is not a domain is refused.
pub fn append_manual(existing: Option<&str>, domain: &str) -> (r: Result<Option<String>, String>)
    ensures
        match r {
            Err(message) => canonical(manual_form(domain@)) is None && message@ == text::quoted(
                manual_form(domain@),
            ) + " is not a valid domain"@,
            Ok(None) => canonical(manual_form(domain@)) is Some && listed(
                text_of_list(existing),
                manual_form(domain@),
            ),
            Ok(Some(t)) => canonical(manual_form(domain@)) is Some && !listed(
                text_of_list(existing),
                manual_form(domain@),
            ) && t@ == appended(text_of_list(existing), manual_form(domain@)),
        },
{
    let wanted = manual_text(domain);
    let line = text::string_of(wanted.as_slice());
    if !is_valid_domain(line.as_str()) {
        let mut message = text::quote(line.as_str());
        message.append(" is not a valid domain");
        return Err(message);
    }
    let mut out = String::new();
    assert(text::lines(seq![]) =~= seq![]);
    if let Some(contents) = existing {
        let chars = text::chars_of(contents);
        let lines = text::lines_of(chars.as_slice());
        let ghost l = text::lines(contents@);
        let mut i: usize = 0;
        while i < lines.len()
            invariant
                i <= lines@.len(),
                l == text::texts(lines@),
                l == text::lines(contents@),
                wanted@ == manual_form(domain@),
                text_of_list(existing) == contents@,
                canonical(manual_form(domain@)) is Some,
                forall|j: int| 0 <= j < i ==> text::trim(#[trigger] l[j], Class::White) != wanted@,
            decreases lines@.len() - i,
        {
            assert(l[i as int] == lines@[i as int]@);
            if text::same(text::strip(lines[i].as_slice(), Class::White), wanted.as_slice()) {
                return Ok(None);
            }
            i += 1;
        }
        if chars.len() > 0 && chars[chars.len() - 1] != '\n' {
            out.push('\n');
        }
    }
    out.append(line.as_str());
    out.push('\n');
    assert(out@ =~= appended(text_of_list(existing), manual_form(domain@)));
    Ok(Some(out))
}

/// The lines that are not the given domain.
pub open spec fn other_lines(lines: Seq<Seq<char>>, domain: Seq<char>) -> Seq<Seq<char>>
    decreases lines.len(),
{
    if lines.len() == 0 {
        seq![]
    } else if text::trim(lines.last(), Class::White) == domain {
        other_lines(lines.drop_last(), domain)
    } else {
        other_lines(lines.drop_last(), domain).push(lines.last())
    }
}

/// What a manual list that holds `existing` holds without `domain`.
pub fn remove_manual(existing: &str, domain: &str) -> (r: String)
    ensures
        r@ == text::join(other_lines(text::lines(existing@), manual_form(domain@)), "\n"@)
            + seq!['\n'],
{
    let wanted = manual_text(domain);
    let chars = text::chars_of(existing);
    let lines = text::lines_of(chars.as_slice());
    let ghost l = text::texts(lines@);
    let mut kept: Vec<String> = Vec::new();
    let mut i: usize = 0;
    assert(l.take(0) =~= seq![]);
    assert(text::strings(kept@) =~= seq![]);
    while i < lines.len()
        invariant
            i <= lines@.len(),
            l == text::texts(lines@),
            wanted@ == manual_form(domain@),
            text::strings(kept@) == other_lines(l.take(i as int), wanted@),
        decreases lines@.len() - i,
    {
        let ghost before = kept@;
        proof {
            assert(l.take(i + 1).drop_last() =~= l.take(i as int));
            assert(l.take(i + 1).last() == lines@[i as int]@);
        }
        if !text::same(text::strip(lines[i].as_slice(), Class::White), wanted.as_slice()) {
            kept.push(text::string_of(lines[i].as_slice()));
            assert(text::strings(kept@) =~= text::strings(before).push(lines@[i as int]@));
        }
        i += 1;
    }
    assert(l.take(i as int) =~= l);
    let mut out = text::joined(&kept, "\n");
    let ghost joined = out@;
    out.push('\n');
    assert(out@ =~= joined + seq!['\n']);
    out
}

/// A domain that was appended to a list is its last line, and the lines that were there
/// before still are, in order: all as they were, but that a carriage return at the very
/// end of the list now belongs to the end of its line.
pub proof fn an_appended_domain_is_listed(existing: Seq<char>, domain: Seq<char>)
    requires
        canonical(manual_form(domain)) is Some,
    ensures
        ({
            let m = manual_form(domain);
            let before = text::lines(existing);
            let after = text::lines(existing + appended(existing, m));
            &&& after.len() == before.len() + 1
            &&& after.last() == m
            &&& forall|i: int|
                0 <= i < before.len() ==> #[trigger] after[i] == before[i] || i == before.len() - 1
                    && after[i] == text::without_cr(before[i])
            &&& existing.len() == 0 || existing.last() != '\r' ==> after == before.push(m)
            &&& listed(existing + appended(existing, m), m)
            &&& forall|d: Seq<char>|
                listed(existing, d) ==> listed(existing + appended(existing, m), d)
        }),
{
    let m = manual_form(domain);
    let line = m.push('\n');
    let before = text::lines(existing);
    let whole = existing + appended(existing, m);
    let after = text::lines(whole);
    lemma_manual_form(domain);
    assert(line + seq![] =~= line);
    text::lemma_lines_cons(m, seq![]);
    assert(text::lines(seq![]) =~= seq![]);
    lemma_trimmed_ends(domain);
    lemma_trimmed_ends(m);
    assert(text::is_white('\r'));
    assert(text::without_cr(m) == m);
    if existing.len() > 0 && existing.last() != '\n' {
        let complete = existing.push('\n');
        assert(whole =~= complete + line);
        text::lemma_lines_complete(existing);
        text::lemma_lines_append(complete, line);
        assert(after =~= before.drop_last().push(text::without_cr(before.last())).push(m));
        text::lemma_trim_without_cr(before.last());
        if existing.last() != '\r' {
            assert(after =~= before.push(m));
        }
    } else {
        assert(whole =~= existing + line);
        text::lemma_lines_append(existing, line);
        assert(after =~= before.push(m));
    }
    assert(text::trim(after[before.len() as int], Class::White) == m);
    assert forall|d: Seq<char>| listed(existing, d) implies listed(whole, d) by {
        let i = choose|i: int|
            0 <= i < before.len() && text::trim(#[trigger] before[i], Class::White) == d;
        assert(text::trim(after[i], Class::White) == d);
    }
}

/// Trimming a text that is trimmed changes nothing, nor does lowering its case let
/// white space appear.
proof fn lemma_manual_form(domain: Seq<char>)
    ensures
        text::trim(manual_form(domain), Class::White) == manual_form(domain),
        forall|i: int|
            0 <= i < manual_form(domain).len() && canonical(manual_form(domain)) is Some
                ==> #[trigger] manual_form(domain)[i] != '\n',
{
    let t = text::trim(domain, Class::White);
    let m = manual_form(domain);
    lemma_trimmed_ends(domain);
    if m.len() > 0 {
        assert(m[0] == text::lower_char(t[0]));
        assert(m.last() == text::lower_char(t.last()));
    }
    assert(text::trim_start(m, Class::White) == m);
    assert(text::trim_end(m, Class::White) == m);
    if canonical(m) is Some {
        assert forall|i: int| 0 <= i < m.len() implies #[trigger] m[i] != '\n' by {
            if m[i] == '\n' {
                lemma_entry_chars(m, i);
            }
        }
    }
}

proof fn lemma_trimmed_ends(s: Seq<char>)
    ensures
        ({
            let t = text::trim(s, Class::White);
            t.len() > 0 ==> !text::member(Class::White, t[0]) && !text::member(
                Class::White,
                t.last(),
            )
        }),
{
    let a = text::trim_start(s, Class::White);
    text::lemma_trim_start(s, Class::White);
    lemma_trim_end(a, Class::White);
}

/// A text trimmed at its end is a prefix that does not end with the class.
pub proof fn lemma_trim_end(s: Seq<char>, k: Class)
    ensures
        text::trim_end(s, k).len() <= s.len(),
        text::trim_end(s, k) == s.take(text::trim_end(s, k).len() as int),
        text::trim_end(s, k).len() > 0 ==> !text::member(k, text::trim_end(s, k).last()),
        forall|i: int|
            text::trim_end(s, k).len() <= i < s.len() ==> text::member(k, #[trigger] s[i]),
    decreases s.len(),
{
    if s.len() > 0 && text::member(k, s.last()) {
        lemma_trim_end(s.drop_last(), k);
        let n = text::trim_end(s, k).len() as int;
        assert(s.drop_last().take(n) =~= s.take(n));
        assert forall|i: int| n <= i < s.len() implies text::member(k, #[trigger] s[i]) by {
            if i < s.len() - 1 {
                assert(s.drop_last()[i] == s[i]);
            }
        }
    } else {
        assert(s.take(s.len() as int) =~= s);
    }
}

/// A text that is trimmed and has a canonical form as a list entry is made of a leading
/// `*.`, dots and the characters of labels.
proof fn lemma_entry_chars(m: Seq<char>, i: int)
    requires
        0 <= i < m.len(),
        !label_char(m[i]),
        m[i] != '.',
        m[i] != '*',
        text::trim(m, Class::White) == m,
    ensures
        canonical(m) is None,
{
    let bare = text::trim_end(m, Class::Is('.'));
    let e = text::lower(bare);
    lemma_trim_end(m, Class::Is('.'));
    assert(i < bare.len());
    assert(bare[i] == m[i]);
    assert(e[i] == m[i]);
    if e.len() >= 2 && e[0] == '*' && e[1] == '.' {
        assert(i >= 2);
        assert(e.skip(2)[i - 2] == m[i]);
        lemma_domain_chars(e.skip(2), i - 2);
    } else {
        lemma_domain_chars(e, i);
    }
}

pub proof fn lemma_domain_chars(s: Seq<char>, i: int)
    requires
        0 <= i < s.len(),
        !label_char(s[i]),
        s[i] != '.',
    ensures
        !is_domain(s),
{
    let k = lemma_part_with(s, Class::Is('.'), i);
    let labels = text::split(s, Class::Is('.'));
    if is_domain(s) {
        assert(is_label(labels[k]));
        let j = choose|j: int| 0 <= j < labels[k].len() && labels[k][j] == s[i];
        assert(label_char(labels[k][j]));
    }
}

/// A character that does not separate parts belongs to one of them.
proof fn lemma_part_with(s: Seq<char>, k: Class, i: int) -> (p: int)
    requires
        0 <= i < s.len(),
        !text::member(k, s[i]),
    ensures
        0 <= p < text::split(s, k).len(),
        exists|j: int| 0 <= j < text::split(s, k)[p].len() && text::split(s, k)[p][j] == s[i],
    decreases s.len(),
{
    let f = text::find(s, k);
    text::lemma_find(s, k);
    if f >= s.len() {
        assert(text::split(s, k)[0] == s);
        0
    } else if i < f {
        assert(text::split(s, k)[0] == s.take(f));
        assert(text::split(s, k)[0][i] == s[i]);
        0
    } else {
        let rest = s.skip(f + 1);
        assert(rest[i - f - 1] == s[i]);
        let p = lemma_part_with(rest, k, i - f - 1);
        assert(text::split(s, k)[p + 1] == text::split(rest, k)[p]);
        let j = choose|j: int|
            0 <= j < text::split(rest, k)[p].len() && text::split(rest, k)[p][j] == s[i];
        assert(text::split(s, k)[p + 1][j] == s[i]);
        p + 1
    }
}

/// After a domain is removed no line of the list is the domain, and every other
/// domain that was listed still is.
pub proof fn a_removed_domain_is_not_listed(existing: Seq<char>, domain: Seq<char>)
    requires
        manual_form(domain).len() > 0,
    ensures
        ({
            let after = text::join(
                other_lines(text::lines(existing), manual_form(domain)),
                "\n"@,
            ) + seq!['\n'];
            &&& !listed(after, manual_form(domain))
            &&& forall|d: Seq<char>|
                d != manual_form(domain) && d.len() > 0 ==> (listed(existing, d) <==> listed(
                    after,
                    d,
                ))
        }),
{
    let w = manual_form(domain);
    let l = text::lines(existing);
    let kept = other_lines(l, w);
    let after = text::join(kept, "\n"@) + seq!['\n'];
    lemma_other_lines(l, w);
    assert forall|k: int, i: int| 0 <= k < kept.len() && 0 <= i < kept[k].len() implies
        #[trigger] kept[k][i] != '\n' by {
        let q = choose|q: int| 0 <= q < l.len() && #[trigger] l[q] == kept[k];
        text::lemma_lines_hold_no_feed(existing, q, i);
    }
    lemma_lines_of_join(kept);
    let out = text::lines(after);
    assert forall|i: int| 0 <= i < out.len() implies text::trim(#[trigger] out[i], Class::White)
        == (if kept.len() == 0 {
        seq![]
    } else {
        text::trim(kept[i], Class::White)
    }) by {
        if kept.len() > 0 {
            text::lemma_trim_without_cr(kept[i]);
        }
    }
    assert forall|d: Seq<char>| d != w && d.len() > 0 implies (listed(existing, d) <==> listed(
        after,
        d,
    )) by {
        if listed(existing, d) {
            let i = choose|i: int|
                0 <= i < l.len() && text::trim(#[trigger] l[i], Class::White) == d;
            let k = choose|k: int| 0 <= k < kept.len() && #[trigger] kept[k] == l[i];
            assert(text::trim(out[k], Class::White) == d);
        }
        if listed(after, d) {
            let i = choose|i: int|
                0 <= i < out.len() && text::trim(#[trigger] out[i], Class::White) == d;
            let q = choose|q: int| 0 <= q < l.len() && #[trigger] l[q] == kept[i];
            assert(text::trim(l[q], Class::White) == d);
        }
    }
}

proof fn lemma_other_lines(l: Seq<Seq<char>>, w: Seq<char>)
    ensures
        forall|k: int|
            0 <= k < other_lines(l, w).len() ==> text::trim(
                #[trigger] other_lines(l, w)[k],
                Class::White,
            ) != w && exists|q: int| 0 <= q < l.len() && #[trigger] l[q] == other_lines(l, w)[k],
        forall|q: int|
            0 <= q < l.len() && text::trim(#[trigger] l[q], Class::White) != w ==> exists|k: int|
                0 <= k < other_lines(l, w).len() && #[trigger] other_lines(l, w)[k] == l[q],
    decreases l.len(),
{
    if l.len() > 0 {
        let most = l.drop_last();
        lemma_other_lines(most, w);
        let kept = other_lines(l, w);
        let before = other_lines(most, w);
        assert forall|k: int| 0 <= k < kept.len() implies text::trim(
            #[trigger] kept[k],
            Class::White,
        ) != w && exists|q: int| 0 <= q < l.len() && #[trigger] l[q] == kept[k] by {
            if k < before.len() {
                assert(kept[k] == before[k]);
                let q = choose|q: int| 0 <= q < most.len() && #[trigger] most[q] == before[k];
                assert(l[q] == kept[k]);
            } else {
                assert(l[l.len() - 1] == kept[k]);
            }
        }
        assert forall|q: int|
            0 <= q < l.len() && text::trim(#[trigger] l[q], Class::White) != w implies exists|k: int|
            0 <= k < kept.len() && #[trigger] kept[k] == l[q] by {
            if q < most.len() {
                assert(most[q] == l[q]);
                let k = choose|k: int| 0 <= k < before.len() && #[trigger] before[k] == most[q];
                assert(kept[k] == l[q]);
            } else {
                assert(kept[kept.len() - 1] == l[q]);
            }
        }
    }
}

/// Lines put together again.
proof fn lemma_lines_of_join(kept: Seq<Seq<char>>)
    requires
        forall|k: int, i: int|
            0 <= k < kept.len() && 0 <= i < kept[k].len() ==> #[trigger] kept[k][i] != '\n',
    ensures
        ({
            let out = text::lines(text::join(kept, "\n"@) + seq!['\n']);
            if kept.len() == 0 {
                out == seq![Seq::<char>::empty()]
            } else {
                out.len() == kept.len() && forall|i: int|
                    0 <= i < kept.len() ==> #[trigger] out[i] == text::without_cr(kept[i])
            }
        }),
    decreases kept.len(),
{
    reveal_strlit("\n");
    assert("\n"@ =~= seq!['\n']);
    let s = text::join(kept, "\n"@) + seq!['\n'];
    if kept.len() == 0 {
        let e = Seq::<char>::empty();
        assert(s =~= e.push('\n') + e);
        text::lemma_lines_cons(e, e);
        assert(text::lines(s) =~= seq![e]);
    } else {
        let last = kept.last();
        let n = kept.len() - 1;
        assert forall|i: int| 0 <= i < last.len() implies #[trigger] last[i] != '\n' by {
            assert(kept[n][i] != '\n');
        }
        let e = Seq::<char>::empty();
        assert(last.push('\n') + e =~= last + seq!['\n']);
        text::lemma_lines_cons(last, e);
        assert(text::lines(e) =~= seq![]);
        if kept.len() == 1 {
            assert(text::lines(s) =~= seq![text::without_cr(last)]);
        } else {
            let most = kept.drop_last();
            assert forall|k: int, i: int|
                0 <= k < most.len() && 0 <= i < most[k].len() implies #[trigger] most[k][i]
                != '\n' by {
                assert(kept[k][i] != '\n');
            }
            lemma_lines_of_join(most);
            let head = text::join(most, "\n"@) + seq!['\n'];
            assert(s =~= head + (last + seq!['\n']));
            text::lemma_lines_append(head, last + seq!['\n']);
            assert(text::lines(s) =~= text::lines(head) + seq![text::without_cr(last)]);
        }
    }
}

/// Whether a rule of one of some lists has an effect.
pub open spec fn said(lists: Seq<ListText>, e: EffectView) -> bool {
    exists|i: int|
        0 <= i < lists.len() && said_by(
            list_rules((#[trigger] lists[i]).contents@),
            lists[i].allow,
            e,
        )
}

/// Whether some list blocks a name.
pub open spec fn some_list_blocks(lists: Seq<ListText>, name: Seq<char>) -> bool {
    exists|e: EntryView| #[trigger] said(lists, EffectView::Block(e)) && covers(e, name)
}

/// Whether some list allows a name.
pub open spec fn some_list_allows(lists: Seq<ListText>, name: Seq<char>) -> bool {
    exists|e: EntryView| #[trigger] said(lists, EffectView::Allow(e)) && covers(e, name)
}

/// Exactly what some list blocks and no list allows is blocked, in whatever order the
/// lists are read.
pub proof fn the_lists_decide(lists: Seq<ListText>, name: Seq<char>)
    ensures
        built(lists).wf(),
        built(lists).allows(name) <==> some_list_allows(lists, name),
        built(lists).verdict(name) is Some <==> some_list_blocks(lists, name) && !some_list_allows(
            lists,
            name,
        ),
{
    let b = built(lists);
    lemma_built(lists);
    entries_decide(b, name);
    if allow_covers(b, name) {
        let e = choose|e: EntryView| #[trigger] b.has(EffectView::Allow(e)) && covers(e, name);
        assert(said(lists, EffectView::Allow(e)));
    }
    if some_list_allows(lists, name) {
        let e = choose|e: EntryView|
            #[trigger] said(lists, EffectView::Allow(e)) && covers(e, name);
        assert(b.has(EffectView::Allow(e)));
    }
    if block_covers(b, name) {
        let e = choose|e: EntryView| #[trigger] b.has(EffectView::Block(e)) && covers(e, name);
        assert(said(lists, EffectView::Block(e)));
    }
    if some_list_blocks(lists, name) {
        let e = choose|e: EntryView|
            #[trigger] said(lists, EffectView::Block(e)) && covers(e, name);
        assert(b.has(EffectView::Block(e)));
    }
}

/// The counts of the sources add up to the number of entries: each entry is credited to
/// exactly one list, and no list stands in the table twice.
pub proof fn the_sources_add_up(lists: Seq<ListText>)
    ensures
        total(built(lists).sources) == built(lists).blocked_count(),
        forall|i: int, j: int|
            0 <= i < j < built(lists).sources.len() ==> (#[trigger] built(lists).sources[i]).name
                != (#[trigger] built(lists).sources[j]).name,
{
    lemma_built(lists);
}

/// Some list says a thing if the last one does or one before it.
proof fn lemma_said(lists: Seq<ListText>, e: EffectView)
    requires
        lists.len() > 0,
    ensures
        said(lists, e) <==> said(lists.drop_last(), e) || said_by(
            list_rules(lists.last().contents@),
            lists.last().allow,
            e,
        ),
{
    let most = lists.drop_last();
    let l = lists.last();
    if said(most, e) {
        let i = choose|i: int|
            0 <= i < most.len() && said_by(
                list_rules((#[trigger] most[i]).contents@),
                most[i].allow,
                e,
            );
        assert(lists[i] == most[i]);
    }
    if said_by(list_rules(l.contents@), l.allow, e) {
        assert(lists[lists.len() - 1] == l);
    }
    if said(lists, e) {
        let i = choose|i: int|
            0 <= i < lists.len() && said_by(
                list_rules((#[trigger] lists[i]).contents@),
                lists[i].allow,
                e,
            );
        if i < most.len() {
            assert(most[i] == lists[i]);
        }
    }
}

/// What a blocklist holds is what its lists say.
#[verifier::rlimit(30)]
proof fn lemma_built(lists: Seq<ListText>)
    ensures
        built(lists).wf(),
        total(built(lists).sources) == built(lists).blocked_count(),
        forall|e: EffectView| #[trigger] built(lists).has(e) <==> said(lists, e),
    decreases lists.len(),
{
    if lists.len() > 0 {
        let most = built(lists.drop_last());
        let l = lists.last();
        lemma_built(lists.drop_last());
        lemma_ingested(most, l.contents@, l.name@, l.allow);
        assert forall|e: EffectView| #[trigger] built(lists).has(e) <==> said(lists, e) by {
            lemma_said(lists, e);
            assert(most.has(e) <==> said(lists.drop_last(), e));
        }
    }
}

/// What a list allows is never blocked, whatever the other lists hold and in whatever
/// order they are read.
pub proof fn what_a_list_allows_is_never_blocked(
    lists: Seq<ListText>,
    i: int,
    e: EntryView,
    name: Seq<char>,
)
    requires
        0 <= i < lists.len(),
        said_by(list_rules(lists[i].contents@), lists[i].allow, EffectView::Allow(e)),
        covers(e, name),
    ensures
        built(lists).allows(name),
        built(lists).verdict(name) is None,
{
    the_lists_decide(lists, name);
    assert(said(lists, EffectView::Allow(e)));
}

/// What a list blocks is blocked unless it is allowed, whatever the other lists hold
/// and in whatever order they are read.
pub proof fn what_a_list_blocks_is_blocked(
    lists: Seq<ListText>,
    i: int,
    e: EntryView,
    name: Seq<char>,
)
    requires
        0 <= i < lists.len(),
        said_by(list_rules(lists[i].contents@), lists[i].allow, EffectView::Block(e)),
        covers(e, name),
    ensures
        built(lists).verdict(name) is None <==> built(lists).allows(name),
{
    the_lists_decide(lists, name);
    assert(said(lists, EffectView::Block(e)));
}

/// Once a domain was added to a manual list, the list decides about it: what was denied
/// is blocked unless it is allowed, and what was allowed is never blocked. This does not
/// hold of a domain that starts a line of a hosts file.
pub proof fn an_added_domain_takes_effect(
    lists: Seq<ListText>,
    i: int,
    existing: Seq<char>,
    domain: Seq<char>,
    e: EntryView,
    name: Seq<char>,
)
    requires
        0 <= i < lists.len(),
        canonical(manual_form(domain)) == Some(e),
        covers(e, name),
        !hosts_marker(manual_form(domain)),
        lists[i].contents@ == existing + appended(existing, manual_form(domain)),
    ensures
        lists[i].allow ==> built(lists).verdict(name) is None,
        !lists[i].allow ==> (built(lists).verdict(name) is None <==> built(lists).allows(name)),
{
    let m = manual_form(domain);
    an_appended_domain_is_listed(existing, domain);
    lemma_manual_form(domain);
    lemma_listed_is_a_rule(lists[i].contents@, m);
    let rs = list_rules(lists[i].contents@);
    let j = rs.index_of(RuleView::Line(m));
    if m.len() > 0 && !label_char(m[0]) && m[0] != '.' && m[0] != '*' {
        lemma_entry_chars(m, 0);
    }
    assert(adblock(m) is None);
    assert(effect(rs[j], lists[i].allow) == word_effect(m, lists[i].allow));
    if lists[i].allow {
        assert(said_by(rs, true, EffectView::Allow(e)));
        what_a_list_allows_is_never_blocked(lists, i, e, name);
    } else {
        assert(said_by(rs, false, EffectView::Block(e)));
        what_a_list_blocks_is_blocked(lists, i, e, name);
    }
}

/// A line that is a domain is a rule.
proof fn lemma_listed_is_a_rule(contents: Seq<char>, m: Seq<char>)
    requires
        listed(contents, m),
        text::trim(m, Class::White) == m,
        canonical(m) is Some,
        !hosts_marker(m),
    ensures
        list_rules(contents).contains(RuleView::Line(m)),
{
    let lines = text::lines(contents);
    let i = choose|i: int|
        0 <= i < lines.len() && text::trim(#[trigger] lines[i], Class::White) == m;
    let line = lines[i];
    lemma_word_line(line, m);
    assert(line_rules(line)[0] == RuleView::Line(m));
    lemma_line_rules_kept(lines, i, RuleView::Line(m));
}

proof fn lemma_word_line(line: Seq<char>, m: Seq<char>)
    requires
        text::trim(line, Class::White) == m,
        text::trim(m, Class::White) == m,
        canonical(m) is Some,
        !hosts_marker(m),
    ensures
        line_rules(line) == seq![RuleView::Line(m)],
{
    let a = text::trim_start(line, Class::White);
    text::lemma_trim_start(line, Class::White);
    lemma_trim_end(a, Class::White);
    lemma_trimmed_ends(line);
    let from = line.len() - a.len();
    assert forall|j: int| 0 <= j < m.len() implies !text::member(Class::White, #[trigger] m[j])
        && !text::member(Class::Comment, m[j]) by {
        if text::member(Class::White, m[j]) || text::member(Class::Comment, m[j]) {
            lemma_entry_chars(m, j);
        }
    }
    assert forall|j: int| 0 <= j < line.len() implies !text::member(
        Class::Comment,
        #[trigger] line[j],
    ) by {
        if from <= j {
            assert(a[j - from] == line[j]);
            if j - from < m.len() {
                assert(m[j - from] == a[j - from]);
            }
        }
    }
    text::lemma_find_unique(line, Class::Comment, line.len() as int);
    assert(line.take(line.len() as int) =~= line);
    if m.len() == 0 {
        assert(text::lower(text::trim_end(m, Class::Is('.'))) =~= m);
        lemma_domain_is_not_empty(m);
    }
    text::lemma_find_unique(m, Class::White, m.len() as int);
    assert(m.take(m.len() as int) =~= m);
    let rest = m.skip(m.len() as int);
    assert(text::trim_start(rest, Class::White).len() == 0);
    assert(text::fields(rest) =~= seq![]);
    assert(text::fields(m) =~= seq![m]);
}

/// The rules of each line are rules of the lines.
pub proof fn lemma_line_rules_kept(lines: Seq<Seq<char>>, i: int, rule: RuleView)
    requires
        0 <= i < lines.len(),
        line_rules(lines[i]).contains(rule),
    ensures
        rules_of_lines(lines).contains(rule),
    decreases lines.len(),
{
    let most = rules_of_lines(lines.drop_last());
    let last = line_rules(lines.last());
    if i < lines.len() - 1 {
        lemma_line_rules_kept(lines.drop_last(), i, rule);
        let j = most.index_of(rule);
        assert((most + last)[j] == rule);
    } else {
        let j = last.index_of(rule);
        assert((most + last)[most.len() + j] == rule);
    }
}

/// What is a valid domain is exactly what a list of that one line would add. This does
/// not hold of a rule of an ad blocker, which only a list takes, nor of a domain that
/// starts a line of a hosts file.
pub proof fn a_valid_domain_is_what_a_list_would_add(domain: Seq<char>, list: Seq<char>)
    requires
        forall|i: int|
            0 <= i < domain.len() ==> !text::member(Class::White, #[trigger] domain[i])
                && !text::member(Class::Comment, domain[i]),
        adblock(domain) is None,
        domain != "0.0.0.0.0"@,
    ensures
        canonical(domain) is Some <==> BlocklistView::empty().ingested(domain, list, false).1 == 1,
        canonical(domain) is None <==> BlocklistView::empty().ingested(domain, list, false).1 == 0,
{
    let b = BlocklistView::empty();
    let start = b.interned(list);
    let rs = list_rules(domain);
    lemma_source_position(b.sources, list);
    assert(start.exact == b.exact && start.wildcards == b.wildcards && start.whole == b.whole);
    assert(b.blocked_count() == 0);
    if domain.len() == 0 {
        assert(rs =~= seq![]);
        assert(text::lower(domain) =~= domain);
        lemma_domain_is_not_empty(domain);
    } else {
        lemma_one_word(domain);
        reveal_with_fuel(rules_of_lines, 2);
        assert(rs =~= line_rules(domain));
        if hosts_marker(domain) {
            lemma_markers_are_no_domains(domain);
            let none = seq![domain].drop_first();
            assert(none =~= seq![]);
            assert(rs =~= seq![]);
        } else {
            assert(rs =~= seq![RuleView::Line(domain)]);
            assert(rs.drop_last() =~= seq![]);
            assert(start.with_rules(rs.drop_last(), b.interned_id(list), false) == start);
        }
    }
}

/// A text without white space and comments is its only line, and the only word of it.
pub proof fn lemma_one_word(s: Seq<char>)
    requires
        s.len() > 0,
        forall|i: int|
            0 <= i < s.len() ==> !text::member(Class::White, #[trigger] s[i]) && !text::member(
                Class::Comment,
                s[i],
            ),
    ensures
        text::lines(s) == seq![s],
        text::fields(text::trim(s.take(text::find(s, Class::Comment)), Class::White)) == seq![s],
{
    assert forall|i: int| 0 <= i < s.len() implies !text::member(Class::Is('\n'), #[trigger] s[i]) by {
        assert(text::is_white('\n'));
    }
    text::lemma_find_unique(s, Class::Is('\n'), s.len() as int);
    text::lemma_find_unique(s, Class::Comment, s.len() as int);
    text::lemma_find_unique(s, Class::White, s.len() as int);
    assert(s.take(s.len() as int) =~= s);
    assert(text::trim(s, Class::White) == s);
    let rest = s.skip(s.len() as int);
    assert(text::trim_start(rest, Class::White).len() == 0);
    assert(text::fields(rest) =~= seq![]);
    assert(text::fields(s) =~= seq![s]);
}

/// The addresses that start the lines of hosts files are no domains, but for one that is
/// no address.
pub proof fn lemma_markers_are_no_domains(s: Seq<char>)
    requires
        hosts_marker(s),
        s != "0.0.0.0.0"@,
    ensures
        canonical(s) is None,
{
    reveal_strlit("0.0.0.0");
    reveal_strlit("127.0.0.1");
    reveal_strlit("::");
    reveal_strlit("::1");
    lemma_untrimmed(s);
    assert(text::lower(s) =~= s);
    if s == "::"@ || s == "::1"@ {
        text::lemma_split_none(s, '.');
    } else {
        let ip = crate::addr::Ipv4Addr {
            bits: if s == "0.0.0.0"@ {
                0u32
            } else {
                0x7f00_0001u32
            },
        };
        reveal_with_fuel(number::written, 4);
        assert(ip.text() =~= s);
        crate::addr::an_ipv4_address_reads_back(ip);
    }
}

/// The text of an entry in canonical form. A rule of an ad blocker is written as such.
pub open spec fn entry_text(e: EntryView) -> Seq<char> {
    match e {
        EntryView::Exact(d) => d,
        EntryView::Wildcard(d) => seq!['*', '.'] + d,
        EntryView::Whole(d) => seq!['|', '|'] + d + seq!['^'],
    }
}

/// The canonical form of a list entry is its own canonical form.
pub proof fn a_canonical_entry_is_its_own_form(entry: Seq<char>)
    ensures
        canonical(entry) matches Some(e) ==> canonical(entry_text(e)) == Some(e),
{
    let low = text::lower(text::trim_end(text::trim(entry, Class::White), Class::Is('.')));
    match canonical(entry) {
        Some(EntryView::Exact(d)) => {
            lemma_lower_again(low);
            lemma_domain_ends(d);
            lemma_untrimmed(d);
        },
        Some(EntryView::Wildcard(d)) => {
            let t = seq!['*', '.'] + d;
            lemma_lower_again(low);
            assert(t =~= low);
            lemma_domain_ends(d);
            assert(!text::is_white('*'));
            lemma_untrimmed(t);
            assert(t.skip(2) =~= d);
        },
        _ => {},
    }
}

proof fn lemma_lower_again(s: Seq<char>)
    ensures
        forall|t: Seq<char>| s == #[trigger] text::lower(t) ==> text::lower(s) == s,
{
    assert forall|t: Seq<char>| s == #[trigger] text::lower(t) implies text::lower(s) == s by {
        assert forall|i: int| 0 <= i < s.len() implies text::lower_char(#[trigger] s[i])
            == s[i] by {
            assert(s[i] == text::lower_char(t[i]));
        }
        assert(text::lower(s) =~= s);
    }
}

/// A text that starts and ends with neither white space nor, at its end, a dot.
pub proof fn lemma_untrimmed(s: Seq<char>)
    requires
        s.len() > 0,
        !text::is_white(s[0]),
        !text::is_white(s.last()),
        s.last() != '.',
    ensures
        text::trim_end(text::trim(s, Class::White), Class::Is('.')) == s,
{
}

/// A domain starts and ends with a character of a label.
pub proof fn lemma_domain_ends(d: Seq<char>)
    requires
        is_domain(d),
    ensures
        d.len() > 0,
        label_char(d[0]),
        label_char(d.last()),
{
    lemma_domain_is_not_empty(d);
    let labels = text::split(d, Class::Is('.'));
    if d[0] == '.' {
        text::lemma_find_unique(d, Class::Is('.'), 0);
        assert(labels[0] =~= d.take(0));
        assert(is_label(labels[0]));
    } else if !label_char(d[0]) {
        lemma_domain_chars(d, 0);
    }
    if d.last() == '.' {
        lemma_last_part(d);
        assert(is_label(labels[labels.len() - 1]));
    } else if !label_char(d.last()) {
        lemma_domain_chars(d, d.len() - 1);
    }
}

/// After a separator at the end of a text comes an empty part.
proof fn lemma_last_part(s: Seq<char>)
    requires
        s.len() > 0,
        s.last() == '.',
    ensures
        text::split(s, Class::Is('.')).last().len() == 0,
    decreases s.len(),
{
    let f = text::find(s, Class::Is('.'));
    text::lemma_find(s, Class::Is('.'));
    if f >= s.len() {
        assert(!text::member(Class::Is('.'), s[s.len() - 1]));
    }
    let rest = s.skip(f + 1);
    if rest.len() == 0 {
        text::lemma_split_none(rest, '.');
    } else {
        assert(rest.last() == s.last());
        lemma_last_part(rest);
    }
}

/// How the download of one source is doing, kept across refreshes.
#[derive(Debug)]
pub struct SourceHealth {
    pub url: String,
    /// Unix seconds of the last attempt, successful or not.
    pub last_attempt: Option<i64>,
    pub last_success: Option<i64>,
    pub bytes: Option<u64>,
    /// One of: never_fetched, ok, stale, error.
    pub state: &'static str,
    /// Why `state` is not ok, for people.
    pub error: Option<String>,
}

/// The model of the health of a source.
#[verifier::ext_equal]
pub struct HealthView {
    pub url: Seq<char>,
    pub last_attempt: Option<i64>,
    pub last_success: Option<i64>,
    pub bytes: Option<u64>,
    pub state: Seq<char>,
    pub error: Option<Seq<char>>,
}

/// Something that happened to a source.
pub enum FetchEvent {
    /// A download was begun.
    Begun,
    /// So many bytes arrived.
    Fetched(u64),
    /// The download failed, for this reason.
    Failed(String),
}

/// The model of what happened to a source.
#[verifier::ext_equal]
pub enum FetchView {
    Begun,
    Fetched(u64),
    Failed(Seq<char>),
}

impl View for FetchEvent {
    type V = FetchView;

    open spec fn view(&self) -> FetchView {
        match self {
            FetchEvent::Begun => FetchView::Begun,
            FetchEvent::Fetched(n) => FetchView::Fetched(*n),
            FetchEvent::Failed(reason) => FetchView::Failed(reason@),
        }
    }
}

impl View for SourceHealth {
    type V = HealthView;

    open spec fn view(&self) -> HealthView {
        HealthView {
            url: self.url@,
            last_attempt: self.last_attempt,
            last_success: self.last_success,
            bytes: self.bytes,
            state: self.state@,
            error: match self.error {
                Some(e) => Some(e@),
                None => None,
            },
        }
    }
}

/// The health of a source of which nothing is known.
pub open spec fn unknown_health(url: Seq<char>) -> HealthView {
    HealthView {
        url,
        last_attempt: None,
        last_success: None,
        bytes: None,
        state: "never_fetched"@,
        error: None,
    }
}

impl HealthView {
    /// The health after something happened at `now`. A source that succeeded before
    /// is stale when it fails, not broken: the cached copy still filters.
    pub open spec fn after(self, event: FetchView, now: i64) -> HealthView {
        match event {
            FetchView::Begun => HealthView { last_attempt: Some(now), ..self },
            FetchView::Fetched(n) => HealthView {
                last_success: Some(now),
                bytes: Some(n),
                state: "ok"@,
                error: None,
                ..self
            },
            FetchView::Failed(reason) => HealthView {
                state: if self.last_success is Some {
                    "stale"@
                } else {
                    "error"@
                },
                error: Some(reason),
                ..self
            },
        }
    }
}

impl SourceHealth {
    /// The health of a source of which nothing is known.
    pub fn new(url: &str) -> (r: SourceHealth)
        ensures
            r@ == unknown_health(url@),
    {
        SourceHealth {
            url: url.to_string(),
            last_attempt: None,
            last_success: None,
            bytes: None,
            state: "never_fetched",
            error: None,
        }
    }
}

/// The models of the health of sources.
pub open spec fn healths(v: Seq<SourceHealth>) -> Seq<HealthView> {
    v.map_values(|h: SourceHealth| h@)
}

/// The health of the configured sources before the first refresh.
pub fn new_health(sources: &Vec<String>) -> (r: Vec<SourceHealth>)
    ensures
        healths(r@) == sources@.map_values(|u: String| unknown_health(u@)),
{
    let mut out: Vec<SourceHealth> = Vec::new();
    let mut i: usize = 0;
    while i < sources.len()
        invariant
            i <= sources@.len(),
            out@.len() == i,
            forall|j: int| 0 <= j < i ==> (#[trigger] out@[j])@ == unknown_health(sources@[j]@),
        decreases sources@.len() - i,
    {
        out.push(SourceHealth::new(sources[i].as_str()));
        i += 1;
    }
    assert(healths(out@) =~= sources@.map_values(|u: String| unknown_health(u@)));
    out
}

/// The health of sources after something happened to the first one with the given
/// address.
pub open spec fn updated_health(
    list: Seq<HealthView>,
    url: Seq<char>,
    event: FetchView,
    now: i64,
) -> Seq<HealthView>
    decreases list.len(),
{
    if list.len() == 0 {
        list
    } else if list[0].url == url {
        list.update(0, list[0].after(event, now))
    } else {
        seq![list[0]] + updated_health(list.drop_first(), url, event, now)
    }
}

proof fn lemma_updated_health(
    list: Seq<HealthView>,
    url: Seq<char>,
    event: FetchView,
    now: i64,
    i: int,
)
    requires
        0 <= i <= list.len(),
        forall|j: int| 0 <= j < i ==> (#[trigger] list[j]).url != url,
        i < list.len() ==> list[i].url == url,
    ensures
        updated_health(list, url, event, now) == (if i < list.len() {
            list.update(i, list[i].after(event, now))
        } else {
            list
        }),
    decreases list.len(),
{
    if list.len() > 0 && i > 0 {
        assert(list[0].url != url);
        let rest = list.drop_first();
        assert forall|j: int| 0 <= j < i - 1 implies (#[trigger] rest[j]).url != url by {
            assert(list[j + 1].url != url);
        }
        lemma_updated_health(rest, url, event, now, i - 1);
        assert(updated_health(list, url, event, now) =~= (if i < list.len() {
            list.update(i, list[i].after(event, now))
        } else {
            list
        }));
    }
}

/// Notes what happened to a source. A source that is not configured is not noted.
pub fn set_health(health: &mut Vec<SourceHealth>, url: &str, event: FetchEvent, now: i64)
    ensures
        healths(final(health)@) == updated_health(healths(old(health)@), url@, event@, now),
{
    let wanted = url.to_string();
    let ghost before = healths(health@);
    let n: usize = health.len();
    let mut i: usize = 0;
    while i < n && health[i].url != wanted
        invariant
            i <= n == health@.len(),
            wanted@ == url@,
            before == healths(health@),
            forall|j: int| 0 <= j < i ==> (#[trigger] before[j]).url != url@,
        decreases n - i,
    {
        assert(before[i as int] == health@[i as int]@);
        i += 1;
    }
    proof {
        if i < n {
            assert(before[i as int] == health@[i as int]@);
        }
        lemma_updated_health(before, url@, event@, now, i as int);
    }
    if i >= n {
        return;
    }
    let ghost e = event@;
    let ghost h = health@[i as int]@;
    match event {
        FetchEvent::Begun => {
            health[i].last_attempt = Some(now);
        },
        FetchEvent::Fetched(bytes) => {
            health[i].last_success = Some(now);
            health[i].bytes = Some(bytes);
            health[i].state = "ok";
            health[i].error = None;
        },
        FetchEvent::Failed(reason) => {
            health[i].state = if health[i].last_success.is_some() {
                "stale"
            } else {
                "error"
            };
            health[i].error = Some(reason);
        },
    }
    assert(health@[i as int]@ =~= h.after(e, now));
    assert(healths(health@) =~= before.update(i as int, h.after(e, now)));
}

/// What a refresh achieved.
#[derive(Debug)]
pub struct RefreshOutcome {
    pub attempted: usize,
    pub succeeded: usize,
    /// The address and the reason of each source that failed.
    pub failures: Vec<(String, String)>,
}

/// The model of what a refresh achieved.
#[verifier::ext_equal]
pub struct OutcomeView {
    pub attempted: usize,
    pub succeeded: usize,
    pub failures: Seq<(Seq<char>, Seq<char>)>,
}

impl View for RefreshOutcome {
    type V = OutcomeView;

    open spec fn view(&self) -> OutcomeView {
        OutcomeView {
            attempted: self.attempted,
            succeeded: self.succeeded,
            failures: self.failures@.map_values(|f: (String, String)| (f.0@, f.1@)),
        }
    }
}

impl OutcomeView {
    /// Every attempt has either succeeded or is among the failures.
    pub open spec fn balanced(self) -> bool {
        self.attempted == self.succeeded + self.failures.len()
    }

    /// The outcome with one more source.
    pub open spec fn with(self, url: Seq<char>, result: Result<u64, Seq<char>>) -> OutcomeView {
        match result {
            Ok(_) => OutcomeView {
                attempted: (self.attempted + 1) as usize,
                succeeded: (self.succeeded + 1) as usize,
                ..self
            },
            Err(reason) => OutcomeView {
                attempted: (self.attempted + 1) as usize,
                failures: self.failures.push((url, reason)),
                ..self
            },
        }
    }
}

/// The model of how a download ended.
pub open spec fn result_view(r: Result<u64, String>) -> Result<u64, Seq<char>> {
    match r {
        Ok(n) => Ok(n),
        Err(e) => Err(e@),
    }
}

impl Default for RefreshOutcome {
    fn default() -> (r: RefreshOutcome)
        ensures
            r@ == (OutcomeView { attempted: 0, succeeded: 0, failures: seq![] }),
            r@.balanced(),
    {
        let r = RefreshOutcome { attempted: 0, succeeded: 0, failures: Vec::new() };
        assert(r@.failures =~= seq![]);
        r
    }
}

impl RefreshOutcome {
    /// Tells whether something was tried and everything failed. A refresh with
    /// nothing configured is not a failure.
    pub fn total_failure(&self) -> (r: bool)
        ensures
            r == (self.attempted > 0 && self.succeeded == 0),
    {
        self.attempted > 0 && self.succeeded == 0
    }

    /// Notes how the download of one source ended, in the outcome and in the health
    /// of the source.
    pub fn record(
        &mut self,
        health: &mut Vec<SourceHealth>,
        url: &str,
        now: i64,
        result: Result<u64, String>,
    )
        requires
            old(self)@.balanced(),
            old(self).attempted < usize::MAX,
        ensures
            final(self)@ == old(self)@.with(url@, result_view(result)),
            final(self)@.balanced(),
            healths(final(health)@) == updated_health(
                healths(old(health)@),
                url@,
                match result {
                    Ok(n) => FetchView::Fetched(n),
                    Err(e) => FetchView::Failed(e@),
                },
                now,
            ),
    {
        let ghost before = self@.failures;
        self.attempted += 1;
        match result {
            Ok(bytes) => {
                self.succeeded += 1;
                set_health(health, url, FetchEvent::Fetched(bytes), now);
                assert(self@.failures =~= before);
            },
            Err(reason) => {
                self.failures.push((url.to_string(), reason.clone()));
                assert(self@.failures =~= before.push((url@, reason@)));
                set_health(health, url, FetchEvent::Failed(reason), now);
            },
        }
    }

    /// The outcome when nothing can be downloaded at all: each source is reported
    /// with the same reason.
    pub fn unavailable(sources: &Vec<String>, reason: &str) -> (r: RefreshOutcome)
        ensures
            r@ == (OutcomeView {
                attempted: sources@.len() as usize,
                succeeded: 0,
                failures: sources@.map_values(|u: String| (u@, reason@)),
            }),
            r@.balanced(),
    {
        let mut failures: Vec<(String, String)> = Vec::new();
        let mut i: usize = 0;
        while i < sources.len()
            invariant
                i <= sources@.len(),
                failures@.len() == i,
                forall|j: int|
                    0 <= j < i ==> (#[trigger] failures@[j]).0@ == sources@[j]@ && failures@[j].1@
                        == reason@,
            decreases sources@.len() - i,
        {
            failures.push((sources[i].clone(), reason.to_string()));
            i += 1;
        }
        let r = RefreshOutcome { attempted: sources.len(), succeeded: 0, failures };
        assert(r@.failures =~= sources@.map_values(|u: String| (u@, reason@)));
        r
    }
}

/// The largest list that is downloaded, in bytes: enough for any list in use, and
/// too little to fill a small machine.
pub const MAX_LIST_BYTES: u64 = 67_108_864;

/// Why the body of a list is not kept.
#[derive(Clone, Copy, Debug, PartialEq, Eq, Structural)]
pub enum BodyError {
    /// The server announced so many bytes.
    TooLong(u64),
    /// More bytes arrived than are kept.
    Overrun,
    /// Nothing arrived.
    Empty,
}

impl BodyError {
    /// What is wrong, for people.
    pub open spec fn text(self) -> Seq<char> {
        match self {
            BodyError::TooLong(n) => "list is "@ + number::decimal(n as int)
                + " bytes, over the 67108864 byte limit"@,
            BodyError::Overrun => "list exceeded the 67108864 byte limit mid-download"@,
            BodyError::Empty => "empty response body"@,
        }
    }

    /// What is wrong, for people.
    pub fn message(&self) -> (r: String)
        ensures
            r@ == self.text(),
    {
        match self {
            BodyError::TooLong(n) => {
                let mut out = "list is ".to_string();
                number::push_number(&mut out, *n, 10);
                out.append(" bytes, over the 67108864 byte limit");
                out
            },
            BodyError::Overrun => {
                "list exceeded the 67108864 byte limit mid-download".to_string()
            },
            BodyError::Empty => "empty response body".to_string(),
        }
    }
}

/// Whether a download may begin, given the length that the server announced.
pub fn check_announced(len: Option<u64>) -> (r: Result<(), BodyError>)
    ensures
        r == (match len {
            Some(n) => if n > MAX_LIST_BYTES {
                Err::<(), BodyError>(BodyError::TooLong(n))
            } else {
                Ok(())
            },
            None => Ok(()),
        }),
        r is Err <==> (len matches Some(n) && n > 67_108_864),
{
    match len {
        Some(n) => if n > MAX_LIST_BYTES {
            Err(BodyError::TooLong(n))
        } else {
            Ok(())
        },
        None => Ok(()),
    }
}

/// Appends a chunk to the body, if the body stays within the limit. The limit holds
/// even if the server lied about the length.
pub fn push_chunk(body: &mut Vec<u8>, chunk: &[u8]) -> (r: Result<(), BodyError>)
    ensures
        r is Ok == (old(body)@.len() + chunk@.len() <= MAX_LIST_BYTES),
        r is Ok == (old(body)@.len() + chunk@.len() <= 67_108_864),
        r matches Err(e) ==> e == BodyError::Overrun && final(body)@ == old(body)@,
        r is Ok ==> final(body)@ == old(body)@ + chunk@,
{
    if body.len() as u128 + chunk.len() as u128 > MAX_LIST_BYTES as u128 {
        return Err(BodyError::Overrun);
    }
    let mut i: usize = 0;
    assert(chunk@.take(0) =~= seq![]);
    while i < chunk.len()
        invariant
            i <= chunk@.len(),
            body@ =~= old(body)@ + chunk@.take(i as int),
        decreases chunk@.len() - i,
    {
        body.push(chunk[i]);
        i += 1;
    }
    assert(chunk@.take(i as int) =~= chunk@);
    Ok(())
}

/// Checks a body that is complete, and tells its length.
pub fn finish_body(body: &Vec<u8>) -> (r: Result<u64, BodyError>)
    ensures
        r == (if body@.len() == 0 {
            Err::<u64, BodyError>(BodyError::Empty)
        } else {
            Ok(body@.len() as u64)
        }),
{
    if body.len() == 0 {
        Err(BodyError::Empty)
    } else {
        Ok(body.len() as u64)
    }
}

/// A source that has succeeded is never broken: when it fails it is stale, and what
/// is known of its last success stays.
pub proof fn a_source_that_succeeded_only_goes_stale(
    h: HealthView,
    reason: Seq<char>,
    then: i64,
    now: i64,
    bytes: u64,
)
    ensures
        h.after(FetchView::Fetched(bytes), then).after(FetchView::Begun, now).after(
            FetchView::Failed(reason),
            now,
        ) == (HealthView {
            last_attempt: Some(now),
            last_success: Some(then),
            bytes: Some(bytes),
            state: "stale"@,
            error: Some(reason),
            ..h
        }),
{
}

} // verus!
