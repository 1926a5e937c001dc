//! Counting how often each sequence of nodes occurs in a tree.

use crate::display::shown;
use crate::inst::{lemma_ast_view, nodes_of, Ast, AstCode, Node};
use crate::text::{decimal, decimal_text};
use vstd::prelude::*;

verus! {

/// How often `pattern` occurs in `tree`: as the tree itself, and as the body
/// of a loop of the tree, at any depth.
pub open spec fn occurrences(tree: Seq<Node>, pattern: Seq<Node>) -> nat
    decreases tree, 1nat,
{
    inner_occurrences(tree, pattern) + if tree == pattern {
        1nat
    } else {
        0nat
    }
}

/// How often `pattern` occurs as the body of a loop of `tree`, at any depth.
pub open spec fn inner_occurrences(tree: Seq<Node>, pattern: Seq<Node>) -> nat
    decreases tree, 0nat,
{
    if tree.len() == 0 {
        0
    } else {
        inner_occurrences(tree.drop_last(), pattern) + match tree.last() {
            Node::Loop(body) => occurrences(body, pattern),
            _ => 0,
        }
    }
}

/// What an entry counts for a pattern: its count where it is an entry for
/// that pattern, and zero otherwise.
pub open spec fn share(entry: (AstCode, usize), pattern: Seq<Node>) -> nat {
    if entry.0@ == pattern {
        entry.1 as nat
    } else {
        0
    }
}

/// The sum of the counts of the entries for `pattern`.
pub open spec fn tally(entries: Seq<(AstCode, usize)>, pattern: Seq<Node>) -> nat
    decreases entries.len(),
{
    if entries.len() == 0 {
        0
    } else {
        tally(entries.drop_last(), pattern) + share(entries.last(), pattern)
    }
}

proof fn lemma_tally_update(
    entries: Seq<(AstCode, usize)>,
    i: int,
    entry: (AstCode, usize),
    pattern: Seq<Node>,
)
    requires
        0 <= i < entries.len(),
    ensures
        tally(entries.update(i, entry), pattern) + share(entries[i], pattern) == tally(
            entries,
            pattern,
        ) + share(entry, pattern),
    decreases entries.len(),
{
    let updated = entries.update(i, entry);
    if i == entries.len() - 1 {
        assert(updated.drop_last() =~= entries.drop_last());
    } else {
        assert(updated.drop_last() =~= entries.drop_last().update(i, entry));
        lemma_tally_update(entries.drop_last(), i, entry, pattern);
    }
}

/// The entry at `i` comes before the entry at `j` in a listing: it has the
/// greater count, or the same count and stands first.
pub open spec fn before(entries: Seq<(AstCode, usize)>, i: int, j: int) -> bool {
    entries[i].1 > entries[j].1 || (entries[i].1 == entries[j].1 && i < j)
}

/// `order` holds the index of every entry once, the most frequent first.
pub open spec fn ranked(entries: Seq<(AstCode, usize)>, order: Seq<usize>) -> bool {
    &&& order.len() == entries.len()
    &&& forall|a: int| 0 <= a < order.len() ==> #[trigger] order[a] < entries.len()
    &&& forall|a: int, b: int|
        0 <= a < b < order.len() ==> before(
            entries,
            #[trigger] order[a] as int,
            #[trigger] order[b] as int,
        )
}

/// The line of an entry: its pattern in square brackets, and its count.
pub open spec fn entry_line(entry: (AstCode, usize)) -> Seq<char> {
    "["@ + shown(entry.0@) + "]: "@ + decimal(entry.1 as nat) + "\n"@
}

/// The lines of the entries that `order` names, in that order.
pub open spec fn listing(entries: Seq<(AstCode, usize)>, order: Seq<usize>) -> Seq<char>
    decreases order.len(),
{
    if order.len() == 0 {
        Seq::empty()
    } else {
        listing(entries, order.drop_last()) + entry_line(entries[order.last() as int])
    }
}

/// Counts how often each sequence of nodes occurs as a tree or as the body
/// of a loop.
#[derive(Debug, Default)]
pub struct Analyzer {
    /// Patterns with their counts. A pattern may have more than one entry:
    /// what counts is the sum.
    pub patterns_counter: Vec<(AstCode, usize)>,
}

impl Analyzer {
    /// How often `pattern` has been counted.
    pub open spec fn count(&self, pattern: Seq<Node>) -> nat {
        tally(self.patterns_counter@, pattern)
    }

    pub fn new() -> (analyzer: Self)
        ensures
            forall|pattern: Seq<Node>| analyzer.count(pattern) == 0,
    {
        Self { patterns_counter: Vec::new() }
    }

    /// The indices of the entries, the most frequent first; among entries
    /// with the same count, the earlier first.
    pub fn ranking(&self) -> (order: Vec<usize>)
        ensures
            ranked(self.patterns_counter@, order@),
    {
        let entries = &self.patterns_counter;
        let n: usize = entries.len();
        let mut order: Vec<usize> = Vec::new();
        let mut k: usize = 0;
        while k < n
            invariant
                n == entries.len(),
                k <= n,
                order@.len() == k,
                forall|a: int| 0 <= a < order@.len() ==> #[trigger] order@[a] < k,
                forall|a: int, b: int|
                    0 <= a < b < order@.len() ==> before(
                        entries@,
                        #[trigger] order@[a] as int,
                        #[trigger] order@[b] as int,
                    ),
            decreases n - k,
        {
            let count: usize = entries[k].1;
            let mut p: usize = 0;
            while p < order.len() && entries[order[p]].1 >= count
                invariant
                    n == entries.len(),
                    k < n,
                    order@.len() == k,
                    p <= order@.len(),
                    forall|a: int| 0 <= a < order@.len() ==> #[trigger] order@[a] < k,
                    forall|a: int| 0 <= a < p ==> entries@[#[trigger] order@[a] as int].1 >= count,
                decreases order@.len() - p,
            {
                p += 1;
            }
            let ghost old_order = order@;
            order.insert(p, k);
            proof {
                // the entries before `p` count no less than `k`, those behind count less
                assert forall|a: int, b: int| 0 <= a < b < order@.len() implies before(
                    entries@,
                    #[trigger] order@[a] as int,
                    #[trigger] order@[b] as int,
                ) by {
                    if a == p && p < b - 1 {
                        assert(before(
                            entries@,
                            old_order[p as int] as int,
                            old_order[b - 1] as int,
                        ));
                    }
                }
            }
            k += 1;
        }
        order
    }

    /// Writes the counts out, a line for each entry, the most frequent first.
    pub fn to_string(&self) -> (text: String)
        ensures
            exists|order: Seq<usize>|
                ranked(self.patterns_counter@, order) && text@ == #[trigger] listing(
                    self.patterns_counter@,
                    order,
                ),
    {
        let order = self.ranking();
        let mut text = String::new();
        let mut i: usize = 0;
        while i < order.len()
            invariant
                i <= order@.len(),
                ranked(self.patterns_counter@, order@),
                text@ == listing(self.patterns_counter@, order@.take(i as int)),
            decreases order@.len() - i,
        {
            proof {
                assert(order@.take(i + 1).drop_last() =~= order@.take(i as int));
            }
            let entry = &self.patterns_counter[order[i]];
            text.append("[");
            let pattern = entry.0.to_string();
            text.append(pattern.as_str());
            text.append("]: ");
            let count = decimal_text(entry.1);
            text.append(count.as_str());
            text.append("\n");
            i += 1;
        }
        text
    }

    /// Counts `code` once.
    fn bump(&mut self, code: &AstCode)
        ensures
            forall|pattern: Seq<Node>|
                #[trigger] final(self).count(pattern) == old(self).count(pattern) + if code@
                    == pattern {
                    1nat
                } else {
                    0nat
                },
    {
        let mut i: usize = 0;
        while i < self.patterns_counter.len()
            invariant
                self.patterns_counter@ == old(self).patterns_counter@,
            decreases self.patterns_counter.len() - i,
        {
            if self.patterns_counter[i].0 == *code && self.patterns_counter[i].1 < usize::MAX {
                let key = self.patterns_counter[i].0.clone();
                let n: usize = self.patterns_counter[i].1;
                proof {
                    assert forall|pattern: Seq<Node>|
                        tally(
                            self.patterns_counter@.update(i as int, (key, (n + 1) as usize)),
                            pattern,
                        ) == #[trigger] tally(self.patterns_counter@, pattern) + if code@
                            == pattern {
                            1nat
                        } else {
                            0nat
                        } by {
                        lemma_tally_update(
                            self.patterns_counter@,
                            i as int,
                            (key, (n + 1) as usize),
                            pattern,
                        );
                    }
                }
                self.patterns_counter.set(i, (key, n + 1));
                return ;
            }
            i += 1;
        }
        let key = code.clone();
        proof {
            assert(self.patterns_counter@.push((key, 1usize)).drop_last()
                =~= self.patterns_counter@);
        }
        self.patterns_counter.push((key, 1));
    }

    /// Counts `code` and the body of each loop in it, at any depth, once for
    /// each time it occurs.
    pub fn count_patterns(&mut self, code: &AstCode)
        ensures
            forall|pattern: Seq<Node>|
                #[trigger] final(self).count(pattern) == old(self).count(pattern) + occurrences(
                    code@,
                    pattern,
                ),
        decreases code@,
    {
        self.bump(code);
        let vec = code.vec();
        let n: usize = vec.len();
        let mut i: usize = 0;
        while i < n
            invariant
                n == vec.len(),
                i <= n,
                nodes_of(vec@) == code@,
                forall|pattern: Seq<Node>|
                    #[trigger] self.count(pattern) == old(self).count(pattern) + inner_occurrences(
                        code@.take(i as int),
                        pattern,
                    ) + if code@ == pattern {
                        1nat
                    } else {
                        0nat
                    },
            decreases n - i,
        {
            proof {
                lemma_ast_view(vec[i as int]);
                assert(code@.take(i + 1).drop_last() =~= code@.take(i as int));
            }
            match &vec[i] {
                Ast::Loop(body) => {
                    proof {
                        assert(decreases_to!(code@[i as int] => code@[i as int]->Loop_0));
                    }
                    self.count_patterns(body);
                },
                _ => {},
            }
            i += 1;
        }
        assert(code@.take(n as int) =~= code@);
    }
}

} // verus!
