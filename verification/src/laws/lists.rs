//! What holds of domain lists as they are written: which lines say what, and what a list
//! then blocks and allows.

use crate::addr::IpAddr;
use crate::blocklist;
use crate::blocklist::{
    BlocklistView, EffectView, EntryView, FetchView, HealthView, ListText, OutcomeView, RuleView,
    SourceId,
};
use crate::text;
use crate::text::Class;
use vstd::prelude::*;

verus! {

/// The words of a line, up to a comment.
pub open spec fn words(line: Seq<char>) -> Seq<Seq<char>> {
    text::fields(text::trim(line.take(text::find(line, Class::Comment)), Class::White))
}

/// The addresses by which a line of a hosts file is known.
pub open spec fn is_hosts_line(w: Seq<Seq<char>>) -> bool {
    w.len() > 0 && (w[0] == "0.0.0.0"@ || w[0] == "127.0.0.1"@ || w[0] == "::"@ || w[0] == "::1"@
        || w[0] == "0.0.0.0.0"@)
}

/// The names of the machine itself, which every hosts file holds.
pub open spec fn is_own_name(s: Seq<char>) -> bool {
    text::lower(s) == "localhost"@ || text::lower(s) == "localhost.localdomain"@ || text::lower(s)
        == "broadcasthost"@
}

/// Some names are dropped, and the others stay in order.
proof fn lemma_without_local(v: Seq<Seq<char>>)
    ensures
        blocklist::without_local(v) == v.filter(|w: Seq<char>| !is_own_name(w)),
        forall|i: int|
            0 <= i < v.len() && !is_own_name(#[trigger] v[i])
                ==> blocklist::without_local(v).contains(v[i]),
        forall|j: int|
            0 <= j < blocklist::without_local(v).len() ==> v.contains(
                #[trigger] blocklist::without_local(v)[j],
            ) && !is_own_name(blocklist::without_local(v)[j]),
    decreases v.len(),
{
    reveal(Seq::filter);
    let kept = blocklist::without_local(v);
    if v.len() > 0 {
        let most = blocklist::without_local(v.drop_last());
        lemma_without_local(v.drop_last());
        assert forall|i: int| 0 <= i < v.len() && !is_own_name(#[trigger] v[i]) implies kept.contains(
            v[i],
        ) by {
            if i < v.len() - 1 {
                assert(v.drop_last()[i] == v[i]);
                let j = most.index_of(v[i]);
                assert(kept[j] == v[i]);
            } else {
                assert(kept[kept.len() - 1] == v[i]);
            }
        }
        assert forall|j: int| 0 <= j < kept.len() implies v.contains(#[trigger] kept[j])
            && !is_own_name(kept[j]) by {
            if j < most.len() {
                assert(most[j] == kept[j]);
                let i = v.drop_last().index_of(kept[j]);
                assert(v[i] == kept[j]);
            } else {
                assert(v[v.len() - 1] == kept[j]);
            }
        }
    }
}

/// Every word after the address of a hosts line is a name that the line lists, but for the
/// names of the machine itself, in the order in which they stand there. The line lists
/// nothing else.
pub proof fn every_name_on_a_hosts_line_counts(line: Seq<char>)
    requires
        is_hosts_line(words(line)),
    ensures
        forall|i: int|
            1 <= i < words(line).len() && !is_own_name(#[trigger] words(line)[i])
                ==> blocklist::line_rules(line).contains(RuleView::Name(words(line)[i])),
        forall|j: int|
            0 <= j < blocklist::line_rules(line).len() ==> (
            #[trigger] blocklist::line_rules(line)[j] matches RuleView::Name(s) && !is_own_name(s)
                && words(line).drop_first().contains(s)),
        blocklist::line_rules(line) == words(line).drop_first().filter(
            |s: Seq<char>| !is_own_name(s),
        ).map_values(|s: Seq<char>| RuleView::Name(s)),
{
    let w = words(line);
    let rest = w.drop_first();
    let kept = blocklist::without_local(rest);
    let rs = blocklist::line_rules(line);
    lemma_without_local(rest);
    assert forall|i: int| 1 <= i < w.len() && !is_own_name(#[trigger] w[i]) implies rs.contains(
        RuleView::Name(w[i]),
    ) by {
        assert(rest[i - 1] == w[i]);
        let j = kept.index_of(w[i]);
        assert(rs[j] == RuleView::Name(w[i]));
    }
    assert(rs =~= rest.filter(|s: Seq<char>| !is_own_name(s)).map_values(
        |s: Seq<char>| RuleView::Name(s),
    ));
}

/// Each domain on a hosts line of a list is blocked unless something allows it, or allowed
/// where the list allows, wherever it stands on the line and in the list and whatever the
/// other lists hold.
pub proof fn every_domain_on_a_hosts_line_takes_effect(
    lists: Seq<ListText>,
    l: int,
    k: int,
    j: int,
)
    requires
        0 <= l < lists.len(),
        0 <= k < text::lines(lists[l].contents@).len(),
        ({
            let w = words(text::lines(lists[l].contents@)[k]);
            is_hosts_line(w) && 1 <= j < w.len() && !is_own_name(w[j]) && blocklist::is_domain(
                text::lower(w[j]),
            )
        }),
    ensures
        ({
            let name = text::lower(words(text::lines(lists[l].contents@)[k])[j]);
            let b = blocklist::built(lists);
            &&& lists[l].allow ==> b.allows(name) && b.verdict(name) is None
            &&& !lists[l].allow ==> (b.verdict(name) is Some <==> !b.allows(name))
        }),
{
    let contents = lists[l].contents@;
    let lines = text::lines(contents);
    let w = words(lines[k]);
    let rule = RuleView::Name(w[j]);
    let rs = blocklist::list_rules(contents);
    every_name_on_a_hosts_line_counts(lines[k]);
    blocklist::lemma_line_rules_kept(lines, k, rule);
    let at = rs.index_of(rule);
    a_domain_is_its_own_entry(w[j]);
    let e = EntryView::Exact(text::lower(w[j]));
    assert(blocklist::effect(rs[at], lists[l].allow) == blocklist::word_effect(
        w[j],
        lists[l].allow,
    ));
    if lists[l].allow {
        assert(blocklist::said_by(rs, true, EffectView::Allow(e)));
        blocklist::what_a_list_allows_is_never_blocked(lists, l, e, text::lower(w[j]));
    } else {
        assert(blocklist::said_by(rs, false, EffectView::Block(e)));
        blocklist::what_a_list_blocks_is_blocked(lists, l, e, text::lower(w[j]));
    }
}

/// A line of several words that does not start with such an address says nothing, and
/// neither does a line without words.
pub proof fn other_lines_of_words_say_nothing(line: Seq<char>)
    requires
        words(line).len() != 1,
        !is_hosts_line(words(line)),
    ensures
        blocklist::line_rules(line).len() == 0,
{
}

/// What follows `#` or `!` on a line changes nothing.
pub proof fn a_comment_changes_nothing(line: Seq<char>, mark: char, comment: Seq<char>)
    requires
        mark == '#' || mark == '!',
        forall|i: int| 0 <= i < line.len() ==> #[trigger] line[i] != '#' && line[i] != '!',
    ensures
        blocklist::line_rules(line.push(mark) + comment) == blocklist::line_rules(line),
{
    let all = line.push(mark) + comment;
    assert forall|j: int| 0 <= j < line.len() implies !text::member(
        Class::Comment,
        #[trigger] all[j],
    ) by {
        assert(all[j] == line[j]);
    }
    assert(all[line.len() as int] == mark);
    text::lemma_find_unique(all, Class::Comment, line.len() as int);
    text::lemma_find_unique(line, Class::Comment, line.len() as int);
    assert(all.take(line.len() as int) =~= line.take(line.len() as int));
}

/// A list is read line by line: the rules of one list after another are the rules of the
/// first and then those of the second.
pub proof fn a_list_is_read_line_by_line(a: Seq<char>, b: Seq<char>)
    requires
        a.len() == 0 || a.last() == '\n',
    ensures
        blocklist::list_rules(a + b) == blocklist::list_rules(a) + blocklist::list_rules(b),
{
    text::lemma_lines_append(a, b);
    lemma_rules_of_lines(text::lines(a), text::lines(b));
}

proof fn lemma_rules_of_lines(a: Seq<Seq<char>>, b: Seq<Seq<char>>)
    ensures
        blocklist::rules_of_lines(a + b) == blocklist::rules_of_lines(a)
            + blocklist::rules_of_lines(b),
    decreases b.len(),
{
    if b.len() == 0 {
        assert(a + b =~= a);
        assert(blocklist::rules_of_lines(a) + blocklist::rules_of_lines(b)
            =~= blocklist::rules_of_lines(a));
    } else {
        lemma_rules_of_lines(a, b.drop_last());
        assert((a + b).drop_last() =~= a + b.drop_last());
        assert(blocklist::rules_of_lines(a + b) =~= blocklist::rules_of_lines(a)
            + blocklist::rules_of_lines(b));
    }
}

/// A domain is taken as it is but for its letters, which become small ones.
pub proof fn a_domain_is_its_own_entry(d: Seq<char>)
    requires
        blocklist::is_domain(text::lower(d)),
    ensures
        blocklist::canonical(d) == Some(EntryView::Exact(text::lower(d))),
        blocklist::canonical(seq!['*', '.'] + d) == Some(EntryView::Wildcard(text::lower(d))),
        blocklist::canonical(d.push('.')) == Some(EntryView::Exact(text::lower(d))),
        blocklist::canonical(seq![' '] + d) == Some(EntryView::Exact(text::lower(d))),
        blocklist::canonical(d.push(' ')) == Some(EntryView::Exact(text::lower(d))),
{
    let low = text::lower(d);
    blocklist::lemma_domain_ends(low);
    assert(low[0] == text::lower_char(d[0]));
    assert(low.last() == text::lower_char(d.last()));
    assert(!text::is_white(d[0]) && !text::is_white(d.last()) && d.last() != '.');
    blocklist::lemma_untrimmed(d);
    if low[0] == '*' {
        blocklist::lemma_domain_chars(low, 0);
    }
    let star = seq!['*', '.'] + d;
    blocklist::lemma_untrimmed(star);
    assert(text::lower(star) =~= seq!['*', '.'] + low);
    assert((seq!['*', '.'] + low).skip(2) =~= low);
    let dot = d.push('.');
    reveal_with_fuel(text::trim_end, 2);
    reveal_with_fuel(text::trim_start, 2);
    assert(!text::is_white('.'));
    assert(text::trim(dot, Class::White) == dot);
    assert(dot.drop_last() =~= d);
    assert(text::trim_end(dot, Class::Is('.')) == d);
    let before = seq![' '] + d;
    assert(text::is_white(' '));
    assert(before.drop_first() =~= d);
    assert(text::trim_start(before, Class::White) == d);
    let after = d.push(' ');
    assert(after.drop_last() =~= d);
    assert(text::trim_start(after, Class::White) == after);
    assert(text::trim_end(after, Class::White) == d);
}

/// A name of two labels is a domain if and only if each has between 1 and 63 letters,
/// digits, hyphens and underscores, and the whole is no address.
pub proof fn what_a_domain_is_made_of(a: Seq<char>, b: Seq<char>)
    requires
        forall|i: int| 0 <= i < a.len() ==> #[trigger] a[i] != '.',
        forall|i: int| 0 <= i < b.len() ==> #[trigger] b[i] != '.',
    ensures
        !blocklist::is_domain(a),
        blocklist::is_domain(a.push('.') + b) <==> {
            &&& 1 <= a.len() <= 63
            &&& 1 <= b.len() <= 63
            &&& forall|i: int| 0 <= i < a.len() ==> may_stand_in_a_label(#[trigger] a[i])
            &&& forall|i: int| 0 <= i < b.len() ==> may_stand_in_a_label(#[trigger] b[i])
            &&& IpAddr::written_by(a.push('.') + b) is None
        },
{
    text::lemma_split_none(a, '.');
    text::lemma_split_none(b, '.');
    text::lemma_split_at(a, '.', b);
    let s = a.push('.') + b;
    let labels = text::split(s, Class::Is('.'));
    assert(labels =~= seq![a, b]);
    assert(labels[0] == a && labels[1] == b);
}

/// The characters of a label.
pub open spec fn may_stand_in_a_label(c: char) -> bool {
    'a' <= c <= 'z' || 'A' <= c <= 'Z' || '0' <= c <= '9' || c == '-' || c == '_'
}

/// A domain has at most 253 characters, starts and ends with a character of a label, and
/// holds nothing but such characters and dots. It is no address.
pub proof fn what_a_domain_may_hold(d: Seq<char>, i: int)
    requires
        blocklist::is_domain(d),
        0 <= i < d.len(),
    ensures
        3 <= d.len() <= 253,
        may_stand_in_a_label(d[i]) || d[i] == '.',
        may_stand_in_a_label(d[0]),
        may_stand_in_a_label(d.last()),
        d.contains('.'),
        IpAddr::written_by(d) is None,
{
    blocklist::lemma_domain_ends(d);
    if !may_stand_in_a_label(d[i]) && d[i] != '.' {
        blocklist::lemma_domain_chars(d, i);
    }
    let f = text::find(d, Class::Is('.'));
    text::lemma_find(d, Class::Is('.'));
    assert(f < d.len());
    assert(d[f] == '.');
}

/// A list of its own.
pub open spec fn one_list(contents: Seq<char>, list: Seq<char>, allow: bool) -> BlocklistView {
    BlocklistView::empty().ingested(contents, list, allow).0
}

/// Whether a name lies below a domain.
pub open spec fn lies_below(domain: Seq<char>, name: Seq<char>) -> bool {
    exists|prefix: Seq<char>| name == #[trigger] (prefix + seq!['.']) + domain
}

proof fn lemma_empty()
    ensures
        BlocklistView::empty().wf(),
        forall|e: EffectView| !#[trigger] BlocklistView::empty().has(e),
{
}

/// What a list of one rule does.
proof fn lemma_one_rule(
    contents: Seq<char>,
    list: Seq<char>,
    allow: bool,
    rule: RuleView,
    does: EffectView,
    name: Seq<char>,
)
    requires
        blocklist::list_rules(contents) == seq![rule],
        blocklist::effect(rule, allow) == Some(does),
    ensures
        does matches EffectView::Block(e) ==> {
            &&& !one_list(contents, list, allow).allows(name)
            &&& one_list(contents, list, allow).verdict(name) == if blocklist::covers(e, name) {
                Some(list)
            } else {
                None
            }
        },
        does matches EffectView::Allow(e) ==> {
            &&& one_list(contents, list, allow).verdict(name) is None
            &&& one_list(contents, list, allow).allows(name) <==> blocklist::covers(e, name)
        },
{
    let none = BlocklistView::empty();
    let b = one_list(contents, list, allow);
    let rs = blocklist::list_rules(contents);
    lemma_empty();
    blocklist::lemma_ingested(none, contents, list, allow);
    blocklist::entries_decide(b, name);
    assert forall|x: EffectView| #[trigger] b.has(x) <==> x == does by {
        assert(b.has(x) <==> none.has(x) || blocklist::said_by(rs, allow, x));
        if x == does {
            assert(blocklist::effect(rs[0], allow) == Some(x));
        }
    }
    match does {
        EffectView::Block(e) => {
            assert(b.has(EffectView::Block(e)));
            if b.verdict(name) is Some {
                a_new_name_is_credited_to_its_list(none, contents, list, name);
            }
        },
        EffectView::Allow(e) => {
            assert(b.has(EffectView::Allow(e)));
        },
    }
}

/// What a domain in small letters says on a line of its own.
proof fn lemma_word_alone(word: Seq<char>)
    requires
        word.len() > 0,
        forall|i: int|
            0 <= i < word.len() ==> !text::is_white(#[trigger] word[i]) && word[i] != '#' && word[i]
                != '!',
        !blocklist::hosts_marker(word),
    ensures
        blocklist::list_rules(word) == seq![RuleView::Line(word)],
{
    assert forall|i: int| 0 <= i < word.len() implies !text::member(Class::White, #[trigger] word[i])
        && !text::member(Class::Comment, word[i]) by {}
    blocklist::lemma_one_word(word);
    reveal_with_fuel(blocklist::rules_of_lines, 2);
    assert(seq![word].drop_last() =~= seq![]);
    assert(blocklist::list_rules(word) =~= blocklist::line_rules(word));
}

proof fn lemma_domain_is_a_word(d: Seq<char>)
    requires
        blocklist::is_domain(d),
        d != "0.0.0.0.0"@,
    ensures
        d.len() > 0,
        !blocklist::hosts_marker(d),
        forall|i: int|
            0 <= i < d.len() ==> !text::is_white(#[trigger] d[i]) && d[i] != '#' && d[i] != '!'
                && d[i] != '|' && d[i] != '@' && d[i] != '*',
{
    what_a_domain_may_hold(d, d.len() - 1);
    assert forall|i: int| 0 <= i < d.len() implies !text::is_white(#[trigger] d[i]) && d[i] != '#'
        && d[i] != '!' && d[i] != '|' && d[i] != '@' && d[i] != '*' by {
        what_a_domain_may_hold(d, i);
    }
    if blocklist::hosts_marker(d) {
        blocklist::lemma_domain_ends(d);
        blocklist::lemma_untrimmed(d);
        lemma_markers_in_small_letters(d);
        blocklist::lemma_markers_are_no_domains(d);
    }
}

proof fn lemma_markers_in_small_letters(s: Seq<char>)
    requires
        blocklist::hosts_marker(s),
    ensures
        text::lower(s) == s,
{
    reveal_strlit("0.0.0.0");
    reveal_strlit("127.0.0.1");
    reveal_strlit("::");
    reveal_strlit("::1");
    reveal_strlit("0.0.0.0.0");
    assert(text::lower(s) =~= s);
}

/// A domain on a line of its own is blocked, and no other name is. In a list that allows,
/// it is the one name that is allowed.
pub proof fn a_domain_on_a_line_means_that_name_alone(
    d: Seq<char>,
    list: Seq<char>,
    name: Seq<char>,
)
    requires
        blocklist::is_domain(d),
        text::lower(d) == d,
        d != "0.0.0.0.0"@,
    ensures
        one_list(d, list, false).verdict(name) == (if name == d {
            Some(list)
        } else {
            None
        }),
        !one_list(d, list, false).allows(name),
        one_list(d, list, true).allows(name) <==> name == d,
        one_list(d, list, true).verdict(name) is None,
{
    lemma_domain_is_a_word(d);
    lemma_word_alone(d);
    a_domain_is_its_own_entry(d);
    assert(blocklist::adblock(d) is None);
    let e = EntryView::Exact(d);
    lemma_one_rule(d, list, false, RuleView::Line(d), EffectView::Block(e), name);
    lemma_one_rule(d, list, true, RuleView::Line(d), EffectView::Allow(e), name);
}

/// A wildcard blocks every name below its domain, and neither the domain itself nor any
/// other name.
pub proof fn a_wildcard_means_what_lies_below(d: Seq<char>, list: Seq<char>, name: Seq<char>)
    requires
        blocklist::is_domain(d),
        text::lower(d) == d,
        d != "0.0.0.0.0"@,
    ensures
        one_list(seq!['*', '.'] + d, list, false).verdict(name) == (if lies_below(d, name) {
            Some(list)
        } else {
            None
        }),
        one_list(seq!['*', '.'] + d, list, true).allows(name) <==> lies_below(d, name),
        !lies_below(d, d),
{
    let t = seq!['*', '.'] + d;
    lemma_domain_is_a_word(d);
    assert forall|i: int| 0 <= i < t.len() implies !text::is_white(#[trigger] t[i]) && t[i] != '#'
        && t[i] != '!' by {
        if i >= 2 {
            assert(t[i] == d[i - 2]);
        }
    }
    assert(t[0] == '*');
    lemma_no_marker(t);
    lemma_word_alone(t);
    a_domain_is_its_own_entry(d);
    assert(blocklist::adblock(t) is None);
    let e = EntryView::Wildcard(d);
    assert(blocklist::covers(e, name) == lies_below(d, name));
    lemma_one_rule(t, list, false, RuleView::Line(t), EffectView::Block(e), name);
    lemma_one_rule(t, list, true, RuleView::Line(t), EffectView::Allow(e), name);
    assert forall|p: Seq<char>| d != #[trigger] (p + seq!['.']) + d by {
        assert(((p + seq!['.']) + d).len() > d.len());
    }
}

/// A rule of an ad blocker means a domain and every name below it. It blocks them, or
/// allows them where it is an exception or stands in a list that allows.
pub proof fn an_ad_blocker_rule_means_the_whole_domain(
    d: Seq<char>,
    list: Seq<char>,
    name: Seq<char>,
)
    requires
        blocklist::is_domain(d),
        text::lower(d) == d,
        d != "0.0.0.0.0"@,
    ensures
        ({
            let blocks = seq!['|', '|'] + d + seq!['^'];
            let excepts = seq!['@', '@', '|', '|'] + d + seq!['^'];
            let meant = name == d || lies_below(d, name);
            &&& one_list(blocks, list, false).verdict(name) == (if meant {
                Some(list)
            } else {
                None
            })
            &&& !one_list(blocks, list, false).allows(name)
            &&& one_list(blocks, list, true).allows(name) <==> meant
            &&& one_list(excepts, list, false).allows(name) <==> meant
            &&& one_list(excepts, list, true).allows(name) <==> meant
            &&& one_list(excepts, list, false).verdict(name) is None
        }),
{
    let blocks = seq!['|', '|'] + d + seq!['^'];
    let excepts = seq!['@', '@', '|', '|'] + d + seq!['^'];
    lemma_blocking_rule(d);
    lemma_excepting_rule(d);
    let e = EntryView::Whole(d);
    assert(blocklist::covers(e, name) == (name == d || lies_below(d, name)));
    lemma_one_rule(blocks, list, false, RuleView::Line(blocks), EffectView::Block(e), name);
    lemma_one_rule(blocks, list, true, RuleView::Line(blocks), EffectView::Allow(e), name);
    lemma_one_rule(excepts, list, false, RuleView::Line(excepts), EffectView::Allow(e), name);
    lemma_one_rule(excepts, list, true, RuleView::Line(excepts), EffectView::Allow(e), name);
}

proof fn lemma_blocking_rule(d: Seq<char>)
    requires
        blocklist::is_domain(d),
        text::lower(d) == d,
        d != "0.0.0.0.0"@,
    ensures
        ({
            let rule = seq!['|', '|'] + d + seq!['^'];
            &&& blocklist::list_rules(rule) == seq![RuleView::Line(rule)]
            &&& blocklist::adblock(rule) == Some((d, false))
        }),
{
    let rule = seq!['|', '|'] + d + seq!['^'];
    lemma_domain_is_a_word(d);
    assert forall|i: int| 0 <= i < rule.len() implies !text::is_white(#[trigger] rule[i]) && rule[i]
        != '#' && rule[i] != '!' by {
        if 2 <= i < d.len() + 2 {
            assert(rule[i] == d[i - 2]);
        }
    }
    assert(rule[0] == '|');
    lemma_no_marker(rule);
    lemma_word_alone(rule);
    assert(rule.subrange(2, rule.len() - 1) =~= d);
}

proof fn lemma_excepting_rule(d: Seq<char>)
    requires
        blocklist::is_domain(d),
        text::lower(d) == d,
        d != "0.0.0.0.0"@,
    ensures
        ({
            let rule = seq!['@', '@', '|', '|'] + d + seq!['^'];
            &&& blocklist::list_rules(rule) == seq![RuleView::Line(rule)]
            &&& blocklist::adblock(rule) == Some((d, true))
        }),
{
    let rule = seq!['@', '@', '|', '|'] + d + seq!['^'];
    lemma_domain_is_a_word(d);
    assert forall|i: int| 0 <= i < rule.len() implies !text::is_white(#[trigger] rule[i]) && rule[i]
        != '#' && rule[i] != '!' by {
        if 4 <= i < d.len() + 4 {
            assert(rule[i] == d[i - 4]);
        }
    }
    assert(rule[0] == '@');
    lemma_no_marker(rule);
    lemma_word_alone(rule);
    let inner = rule.skip(2);
    assert(inner =~= seq!['|', '|'] + d + seq!['^']);
    assert(inner.subrange(2, inner.len() - 1) =~= d);
}

/// The addresses of hosts files start with a digit or a colon.
proof fn lemma_no_marker(s: Seq<char>)
    requires
        s.len() > 0,
        s[0] == '|' || s[0] == '@' || s[0] == '*',
    ensures
        !blocklist::hosts_marker(s),
{
    reveal_strlit("0.0.0.0");
    reveal_strlit("127.0.0.1");
    reveal_strlit("::");
    reveal_strlit("::1");
    reveal_strlit("0.0.0.0.0");
}

/// What is new in a map has one given value.
spec fn new_is(before: Map<Seq<char>, SourceId>, after: Map<Seq<char>, SourceId>, id: SourceId) -> bool {
    forall|d: Seq<char>| #[trigger] after.contains_key(d) ==> before.contains_key(d) || after[d] == id
}

proof fn lemma_new_entries(b: BlocklistView, rs: Seq<RuleView>, id: SourceId)
    ensures
        new_is(b.exact, b.with_rules(rs, id, false).exact, id),
        new_is(b.wildcards, b.with_rules(rs, id, false).wildcards, id),
        new_is(b.whole, b.with_rules(rs, id, false).whole, id),
    decreases rs.len(),
{
    if rs.len() > 0 {
        lemma_new_entries(b, rs.drop_last(), id);
    }
}

/// What is found above a name stands in the map, under a domain above the name.
proof fn lemma_closest(m: Map<Seq<char>, SourceId>, name: Seq<char>) -> (d: Seq<char>)
    requires
        blocklist::closest(m, name) is Some,
    ensures
        m.contains_key(d),
        blocklist::closest(m, name) == Some(m[d]),
        lies_below(d, name),
    decreases name.len(),
{
    let i = text::find(name, Class::Is('.'));
    text::lemma_find(name, Class::Is('.'));
    let parent = name.skip(i + 1);
    let head = name.take(i);
    assert((head + seq!['.']) + parent =~= name);
    if m.contains_key(parent) {
        parent
    } else {
        let d = lemma_closest(m, parent);
        let p = choose|p: Seq<char>| parent == #[trigger] (p + seq!['.']) + d;
        assert(((head + seq!['.'] + p) + seq!['.']) + d =~= name);
        d
    }
}

/// A name that nothing blocked before and something blocks now is credited to the list
/// that was read. This does not hold once the table of sources is full.
pub proof fn a_new_name_is_credited_to_its_list(
    b: BlocklistView,
    contents: Seq<char>,
    list: Seq<char>,
    name: Seq<char>,
)
    requires
        b.wf(),
        b.sources.len() < 65535,
        !blocklist::block_covers(b, name),
        b.ingested(contents, list, false).0.verdict(name) is Some,
    ensures
        b.ingested(contents, list, false).0.verdict(name) == Some(list),
{
    let id = b.interned_id(list);
    let start = b.interned(list);
    let rs = blocklist::list_rules(contents);
    let read = start.with_rules(rs, id, false);
    let after = b.ingested(contents, list, false).0;
    blocklist::lemma_interned(b, list);
    blocklist::lemma_source_position(b.sources, list);
    blocklist::lemma_rules(start, rs, id, false);
    blocklist::lemma_ingested(b, contents, list, false);
    lemma_new_entries(start, rs, id);
    assert(after.sources[id as int].name == list);
    if after.exact.contains_key(name) {
        if b.exact.contains_key(name) {
            assert(b.has(EffectView::Block(EntryView::Exact(name))));
            assert(blocklist::covers(EntryView::Exact(name), name));
        }
    } else if after.whole.contains_key(name) {
        if b.whole.contains_key(name) {
            assert(b.has(EffectView::Block(EntryView::Whole(name))));
            assert(blocklist::covers(EntryView::Whole(name), name));
        }
    } else {
        let d = lemma_closest(after.above(), name);
        assert(blocklist::under(d, name));
        if b.wildcards.contains_key(d) {
            assert(b.has(EffectView::Block(EntryView::Wildcard(d))));
            assert(blocklist::covers(EntryView::Wildcard(d), name));
        }
        if b.whole.contains_key(d) {
            assert(b.has(EffectView::Block(EntryView::Whole(d))));
            assert(blocklist::covers(EntryView::Whole(d), name));
        }
    }
}

/// What a fetch does to the health of a source: an attempt is dated, a success is dated
/// and measured and clears the error, and a failure says why, and that what there is is
/// stale if there is anything. Nothing else about the source changes.
pub open spec fn health_follows(h: HealthView, g: HealthView, event: FetchView, now: i64) -> bool {
    &&& g.url == h.url
    &&& match event {
        FetchView::Begun => {
            &&& g.last_attempt == Some(now)
            &&& g.last_success == h.last_success
            &&& g.bytes == h.bytes
            &&& g.state == h.state
            &&& g.error == h.error
        },
        FetchView::Fetched(n) => {
            &&& g.last_attempt == h.last_attempt
            &&& g.last_success == Some(now)
            &&& g.bytes == Some(n)
            &&& g.state == "ok"@
            &&& g.error is None
        },
        FetchView::Failed(reason) => {
            &&& g.last_attempt == h.last_attempt
            &&& g.last_success == h.last_success
            &&& g.bytes == h.bytes
            &&& h.last_success is Some ==> g.state == "stale"@
            &&& h.last_success is None ==> g.state == "error"@
            &&& g.error == Some(reason)
        },
    }
}

/// A fetch is noted for its source, and for no other.
pub proof fn a_fetch_is_noted_for_its_source_alone(
    list: Seq<HealthView>,
    url: Seq<char>,
    event: FetchView,
    now: i64,
    i: int,
)
    requires
        0 <= i < list.len(),
    ensures
        ({
            let after = blocklist::updated_health(list, url, event, now);
            &&& after.len() == list.len()
            &&& list[i].url != url ==> after[i] == list[i]
            &&& list[i].url == url && (forall|j: int| 0 <= j < i ==> (#[trigger] list[j]).url != url)
                ==> health_follows(list[i], after[i], event, now)
            &&& (exists|j: int| 0 <= j < i && (#[trigger] list[j]).url == url) ==> after[i]
                == list[i]
        }),
    decreases list.len(),
{
    let after = blocklist::updated_health(list, url, event, now);
    if list[0].url != url {
        let rest = list.drop_first();
        if i > 0 {
            a_fetch_is_noted_for_its_source_alone(rest, url, event, now, i - 1);
            assert(rest[i - 1] == list[i]);
            if forall|j: int| 0 <= j < i ==> (#[trigger] list[j]).url != url {
                assert forall|j: int| 0 <= j < i - 1 implies (#[trigger] rest[j]).url != url by {
                    assert(rest[j] == list[j + 1]);
                }
            }
            if exists|j: int| 0 <= j < i && (#[trigger] list[j]).url == url {
                let j = choose|j: int| 0 <= j < i && (#[trigger] list[j]).url == url;
                assert(rest[j - 1] == list[j]);
            }
            assert(after[i] == blocklist::updated_health(rest, url, event, now)[i - 1]);
        } else if rest.len() > 0 {
            a_fetch_is_noted_for_its_source_alone(rest, url, event, now, 0);
        }
    }
}

/// Every download counts as one attempt. One that succeeded counts as a success, and one
/// that failed is reported with its source and its reason, after those before it.
pub proof fn every_download_is_counted_once(
    o: OutcomeView,
    url: Seq<char>,
    result: Result<u64, Seq<char>>,
)
    requires
        o.attempted < usize::MAX,
        o.attempted == o.succeeded + o.failures.len(),
    ensures
        o.with(url, result).attempted == o.attempted + 1,
        result is Ok ==> o.with(url, result).succeeded == o.succeeded + 1 && o.with(
            url,
            result,
        ).failures == o.failures,
        result matches Err(reason) ==> o.with(url, result).succeeded == o.succeeded && o.with(
            url,
            result,
        ).failures.len() == o.failures.len() + 1 && o.with(url, result).failures.last() == (
            url,
            reason,
        ) && o.failures.is_prefix_of(o.with(url, result).failures),
{
}

/// A label before a domain makes a domain, as long as the whole has no more than 253
/// characters and is no address.
pub proof fn a_label_before_a_domain_makes_a_domain(label: Seq<char>, d: Seq<char>)
    requires
        forall|i: int| 0 <= i < label.len() ==> #[trigger] label[i] != '.',
        blocklist::is_domain(d),
        IpAddr::written_by(label.push('.') + d) is None,
    ensures
        blocklist::is_domain(label.push('.') + d) <==> {
            &&& 1 <= label.len() <= 63
            &&& forall|i: int| 0 <= i < label.len() ==> may_stand_in_a_label(#[trigger] label[i])
            &&& label.len() + 1 + d.len() <= 253
        },
{
    let s = label.push('.') + d;
    let rest = text::split(d, Class::Is('.'));
    let labels = text::split(s, Class::Is('.'));
    text::lemma_split_at(label, '.', d);
    assert(labels == seq![label] + rest);
    assert(labels[0] == label);
    assert(forall|i: int| 0 <= i < rest.len() ==> labels[i + 1] == #[trigger] rest[i]);
    if blocklist::is_label(label) {
        assert forall|i: int| 0 <= i < labels.len() implies blocklist::is_label(
            #[trigger] labels[i],
        ) by {
            if i > 0 {
                assert(labels[i] == rest[i - 1]);
            }
        }
    }
}

/// The list that is named for a blocked name is that of the name itself, or else that of the
/// closest domain above it. Of a domain that two lists hold, the wildcard counts.
pub proof fn the_closest_entry_is_named(b: BlocklistView, name: Seq<char>)
    requires
        b.wf(),
        !b.allows(name),
    ensures
        b.exact.contains_key(name) ==> b.verdict(name) == Some(
            b.sources[b.exact[name] as int].name,
        ),
        !b.exact.contains_key(name) && b.whole.contains_key(name) ==> b.verdict(name) == Some(
            b.sources[b.whole[name] as int].name,
        ),
        ({
            let i = text::find(name, Class::Is('.'));
            let parent = name.skip(i + 1);
            !b.exact.contains_key(name) && !b.whole.contains_key(name) && i + 1 < name.len() ==> {
                &&& b.wildcards.contains_key(parent) ==> b.verdict(name) == Some(
                    b.sources[b.wildcards[parent] as int].name,
                )
                &&& !b.wildcards.contains_key(parent) && b.whole.contains_key(parent) ==> b.verdict(
                    name,
                ) == Some(b.sources[b.whole[parent] as int].name)
            }
        }),
{
}

/// Every entry counts for one, whichever way it is written, and once.
pub proof fn every_entry_counts_for_one(b: BlocklistView, e: EntryView, id: SourceId)
    requires
        b.finite(),
        b.exact.len() + b.wildcards.len() + b.whole.len() < usize::MAX,
        b.allow.len() + b.allow_wildcards.len() + b.allow_whole.len() < usize::MAX,
    ensures
        BlocklistView::empty().blocked_count() == 0,
        BlocklistView::empty().allowed_count() == 0,
        b.with_blocked(e, id).blocked_count() == b.blocked_count() + (if b.has(
            EffectView::Block(e),
        ) {
            0int
        } else {
            1
        }),
        b.with_allowed(e).allowed_count() == b.allowed_count() + (if b.has(EffectView::Allow(e)) {
            0int
        } else {
            1
        }),
        b.with_blocked(e, id).allowed_count() == b.allowed_count(),
        b.with_allowed(e).blocked_count() == b.blocked_count(),
{
    match e {
        EntryView::Exact(d) => {
            assert(b.exact.insert(d, id).dom() =~= b.exact.dom().insert(d));
        },
        EntryView::Wildcard(d) => {
            assert(b.wildcards.insert(d, id).dom() =~= b.wildcards.dom().insert(d));
        },
        EntryView::Whole(d) => {
            assert(b.whole.insert(d, id).dom() =~= b.whole.dom().insert(d));
        },
    }
}

/// Downloads and files block, each under its own name, and a manual list does what it is
/// for.
pub proof fn lists_are_taken_as_they_are(
    v: Seq<(String, String)>,
    i: int,
    p: (String, String),
    allow: bool,
)
    ensures
        blocklist::blocking(v).len() == v.len(),
        0 <= i < v.len() ==> blocklist::blocking(v)[i].name == v[i].0@ && blocklist::blocking(
            v,
        )[i].contents == v[i].1@ && !blocklist::blocking(v)[i].allow,
        blocklist::manual(None, allow).len() == 0,
        blocklist::manual(Some(p), allow).len() == 1,
        blocklist::manual(Some(p), allow)[0].name == p.0@,
        blocklist::manual(Some(p), allow)[0].contents == p.1@,
        blocklist::manual(Some(p), allow)[0].allow == allow,
{
}

/// Of a source that was never fetched nothing is known.
pub proof fn nothing_is_known_of_a_source_at_first(url: Seq<char>)
    ensures
        ({
            let h = blocklist::unknown_health(url);
            &&& h.url == url
            &&& h.state == "never_fetched"@
            &&& h.last_attempt is None
            &&& h.last_success is None
            &&& h.bytes is None
            &&& h.error is None
        }),
{
}

/// A manual list holds a domain in small letters, without the white space around it.
pub proof fn a_manual_list_holds_small_letters(d: Seq<char>, i: int)
    requires
        d.len() > 0,
        !text::is_white(d[0]),
        !text::is_white(d.last()),
        0 <= i < d.len(),
    ensures
        blocklist::manual_form(d).len() == d.len(),
        !('A' <= d[i] <= 'Z') ==> blocklist::manual_form(d)[i] == d[i],
        'A' <= d[i] <= 'Z' ==> blocklist::manual_form(d)[i] as int == d[i] as int + 32,
        blocklist::manual_form(seq![' '] + d) == blocklist::manual_form(d),
        blocklist::manual_form(d.push(' ')) == blocklist::manual_form(d),
{
    reveal_with_fuel(text::trim_end, 2);
    reveal_with_fuel(text::trim_start, 2);
    text::lemma_trim_none(d, Class::White);
    let before = seq![' '] + d;
    assert(text::is_white(' '));
    assert(before.drop_first() =~= d);
    assert(text::trim_start(before, Class::White) == d);
    let after = d.push(' ');
    assert(after.drop_last() =~= d);
    assert(text::trim_start(after, Class::White) == after);
    assert(text::trim_end(after, Class::White) == d);
}

/// A domain is listed if some line holds nothing but it, perhaps with white space around it.
pub proof fn a_domain_is_listed_by_a_line_of_its_own(contents: Seq<char>, d: Seq<char>, k: int)
    ensures
        0 <= k < text::lines(contents).len() ==> blocklist::listed(
            contents,
            text::trim(text::lines(contents)[k], Class::White),
        ),
        blocklist::listed(contents, d) ==> exists|i: int|
            0 <= i < text::lines(contents).len() && text::trim(
                #[trigger] text::lines(contents)[i],
                Class::White,
            ) == d,
{
}

/// Removing a domain leaves exactly the other lines, in order and as they are.
pub proof fn removing_a_domain_leaves_the_other_lines(lines: Seq<Seq<char>>, d: Seq<char>)
    ensures
        blocklist::other_lines(lines, d) == lines.filter(
            |l: Seq<char>| text::trim(l, Class::White) != d,
        ),
    decreases lines.len(),
{
    reveal(Seq::filter);
    if lines.len() > 0 {
        removing_a_domain_leaves_the_other_lines(lines.drop_last(), d);
    }
}

} // verus!
