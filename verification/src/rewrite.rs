//! The record rewriter: an ordered list of substitutions applied to a record.

use crate::pattern::engine_replace_all;
use crate::pattern::regex_is_match;
use crate::pattern::regex_replace_all;
use crate::pattern::Matcher;
use std::borrow::Cow;
use vstd::prelude::*;

verus! {

/// One substitution: a pattern, and the literal bytes that replace each of
/// its matches.
pub type Substitute<'a> = (Matcher, &'a [u8]);

/// A substitution as plain values: the pattern text and the replacement.
pub open spec fn rule_view(rule: (Matcher, &[u8])) -> (Seq<char>, Seq<u8>) {
    (rule.0.pattern(), rule.1@)
}

/// A list of substitutions as plain values.
pub open spec fn rules_view(rules: Seq<(Matcher, &[u8])>) -> Seq<(Seq<char>, Seq<u8>)> {
    rules.map_values(|rule: (Matcher, &[u8])| rule_view(rule))
}

/// The list of substitutions behind an optional slice: none where it is
/// absent.
pub open spec fn rules_of(rules: Option<&[(Matcher, &[u8])]>) -> Seq<(Seq<char>, Seq<u8>)> {
    match rules {
        Some(rs) => rules_view(rs@),
        None => Seq::empty(),
    }
}

/// `record` after the substitutions `rules`, applied from the first to the
/// last, each to what the one before it left.
pub open spec fn rewritten(record: Seq<u8>, rules: Seq<(Seq<char>, Seq<u8>)>) -> Seq<u8>
    decreases rules.len(),
{
    if rules.len() == 0 {
        record
    } else {
        let last = rules.last();
        regex_replace_all(last.0, rewritten(record, rules.drop_last()), last.1)
    }
}

/// No pattern of `rules` matches anywhere in `record`.
pub open spec fn matched_by_none(record: Seq<u8>, rules: Seq<(Seq<char>, Seq<u8>)>) -> bool {
    forall|i: int| 0 <= i < rules.len() ==> !regex_is_match((#[trigger] rules[i]).0, record)
}

/// No substitution of `rules` changes `record`.
pub open spec fn settled(record: Seq<u8>, rules: Seq<(Seq<char>, Seq<u8>)>) -> bool {
    forall|i: int|
        0 <= i < rules.len() ==> regex_replace_all(
            (#[trigger] rules[i]).0,
            record,
            rules[i].1,
        ) == record
}

/// A record that no substitution changes is what the whole list makes of it.
pub proof fn lemma_settled_is_fixed(record: Seq<u8>, rules: Seq<(Seq<char>, Seq<u8>)>)
    requires
        settled(record, rules),
    ensures
        rewritten(record, rules) == record,
    decreases rules.len(),
{
    if rules.len() > 0 {
        let front = rules.drop_last();
        assert forall|i: int| 0 <= i < front.len() implies regex_replace_all(
            (#[trigger] front[i]).0,
            record,
            front[i].1,
        ) == record by {
            assert(front[i] == rules[i]);
        }
        lemma_settled_is_fixed(record, front);
        assert(rules.last() == rules[rules.len() - 1]);
    }
}

/// Rewriting is idempotent on records that are already fully rewritten: where
/// no substitution of the list changes `record`, applying the list once
/// leaves it as it is, and so does applying it once more.
pub proof fn lemma_rewrite_idempotent(record: Seq<u8>, rules: Seq<(Seq<char>, Seq<u8>)>)
    requires
        settled(record, rules),
    ensures
        rewritten(record, rules) == record,
        rewritten(rewritten(record, rules), rules) == rewritten(record, rules),
{
    lemma_settled_is_fixed(record, rules);
}

/// The bytes behind a line, borrowed or owned.
pub fn line_bytes<'l>(line: &'l Cow<'_, [u8]>) -> (bytes: &'l [u8])
    ensures
        bytes@ == line@,
{
    match line {
        Cow::Borrowed(b) => b,
        Cow::Owned(v) => v.as_slice(),
    }
}

/// The record rewriter.
///
/// Applies `rules` in order, each replacing every match of its pattern in
/// what the rules before it produced by its literal replacement. The record
/// is copied only by a rule that matches: with no rules, or where no rule
/// finds a match, the input comes back borrowed.
pub fn rewrite<'r>(record: &'r [u8], rules: &[Substitute<'_>]) -> (out: Cow<'r, [u8]>)
    ensures
        out@ == rewritten(record@, rules_view(rules@)),
        out is Borrowed ==> out@ == record@,
        out is Borrowed <==> matched_by_none(record@, rules_view(rules@)),
{
    let mut line: Cow<'r, [u8]> = Cow::Borrowed(record);
    let mut i: usize = 0;
    while i < rules.len()
        invariant
            0 <= i <= rules.len(),
            line@ == rewritten(record@, rules_view(rules@).take(i as int)),
            line is Borrowed ==> line@ == record@,
            line is Borrowed <==> matched_by_none(record@, rules_view(rules@).take(i as int)),
        decreases rules.len() - i,
    {
        let ghost plain = rules_view(rules@);
        let rule = &rules[i];
        let replaced = engine_replace_all(&rule.0, line_bytes(&line), rule.1);
        proof {
            let next = plain.take(i as int + 1);
            assert(next.drop_last() == plain.take(i as int));
            assert(next.last() == rule_view(rules@[i as int]));
            if matched_by_none(record@, next) {
                assert forall|j: int| 0 <= j < i implies !regex_is_match(
                    (#[trigger] plain.take(i as int)[j]).0,
                    record@,
                ) by {
                    assert(plain.take(i as int)[j] == next[j]);
                }
                assert(!regex_is_match(next[i as int].0, record@));
            }
            if matched_by_none(record@, plain.take(i as int)) && !regex_is_match(
                next[i as int].0,
                record@,
            ) {
                assert forall|j: int| 0 <= j < next.len() implies !regex_is_match(
                    (#[trigger] next[j]).0,
                    record@,
                ) by {
                    if j < i {
                        assert(next[j] == plain.take(i as int)[j]);
                    }
                }
            }
        }
        match replaced {
            Cow::Owned(bytes) => {
                line = Cow::Owned(bytes);
            },
            Cow::Borrowed(_) => {},
        }
        i += 1;
    }
    proof {
        assert(rules_view(rules@).take(i as int) == rules_view(rules@));
    }
    line
}

} // verus!
