use crate::config::Config;
use crate::scan::effective_ignores;
use crate::scan::is_listed;
use crate::scan::rule_total;
use crate::scan::tree_size;
use crate::scan::Entry;
use vstd::prelude::*;

verus! {

/// Why no statistics could be given.
#[derive(Debug, Clone, Copy, PartialEq, Eq)]
pub enum StatError {
    /// The root is no directory whose listing could be read.
    RootUnreadable,
    /// The counted bytes of all rules together do not fit in 64 bits.
    TotalOverflow,
}

/// One line of the result: a language, the bytes counted for it, and the
/// bytes counted for all reported languages together. The language's share
/// is `size` in `total`.
#[derive(Debug, Clone, PartialEq, Eq)]
pub struct LanguageStat {
    pub lang: String,
    pub size: u64,
    pub total: u64,
}

/// What each rule counts under a root, in declaration order.
pub open spec fn rule_totals(root: Entry, config: Config) -> Seq<nat> {
    Seq::new(
        config.language@.len(),
        |i: int| rule_total(root, config.common, config.language@[i]),
    )
}

/// The sum of the first `n` amounts.
pub open spec fn sum_first(amounts: Seq<nat>, n: nat) -> nat
    decreases n,
{
    if n == 0 || n > amounts.len() {
        0
    } else {
        sum_first(amounts, (n - 1) as nat) + amounts[n - 1]
    }
}

/// The bytes counted for all rules together.
pub open spec fn grand_total(root: Entry, config: Config) -> nat {
    sum_first(rule_totals(root, config), rule_totals(root, config).len())
}

/// The amounts of a list of sizes.
pub open spec fn amounts(sizes: Seq<u64>) -> Seq<nat> {
    Seq::new(sizes.len(), |i: int| sizes[i] as nat)
}

/// Rule `a` stands before rule `b` in the result: it counted more, or as
/// much and was declared earlier.
pub open spec fn precedes(totals: Seq<nat>, a: int, b: int) -> bool {
    totals[a] > totals[b] || (totals[a] == totals[b] && a < b)
}

/// `order` lists exactly the rules that counted something, each before all
/// that it precedes.
pub open spec fn is_ranking(order: Seq<usize>, totals: Seq<nat>) -> bool {
    &&& forall|k: int|
        0 <= k < order.len() ==> (#[trigger] order[k]) < totals.len() && totals[order[k] as int]
            != 0
    &&& forall|k: int, l: int|
        0 <= k < l < order.len() ==> precedes(
            totals,
            #[trigger] order[k] as int,
            #[trigger] order[l] as int,
        )
    &&& forall|i: int|
        0 <= i < totals.len() && #[trigger] totals[i] != 0 ==> exists|k: int|
            0 <= k < order.len() && #[trigger] order[k] == i
}

/// `stats` reports the rules of `order`, one line each and in that order.
pub open spec fn reports(
    stats: Seq<LanguageStat>,
    order: Seq<usize>,
    config: Config,
    totals: Seq<nat>,
    grand: nat,
) -> bool {
    &&& stats.len() == order.len()
    &&& forall|k: int|
        0 <= k < stats.len() ==> {
            &&& (#[trigger] stats[k]).lang@ == config.language@[order[k] as int].lang@
            &&& stats[k].size == totals[order[k] as int]
            &&& stats[k].total == grand
        }
}

/// The amounts that the rules of `order` counted, added up.
pub open spec fn ranked_sum(order: Seq<usize>, totals: Seq<nat>) -> nat
    decreases order.len(),
{
    if order.len() == 0 {
        0
    } else {
        ranked_sum(order.drop_last(), totals) + totals[order.last() as int]
    }
}

/// The sizes of the lines of a result, added up.
pub open spec fn sizes_sum(stats: Seq<LanguageStat>) -> nat
    decreases stats.len(),
{
    if stats.len() == 0 {
        0
    } else {
        sizes_sum(stats.drop_last()) + stats.last().size as nat
    }
}

/// `stats` is the result for `root` under `config`: one line for each rule
/// that counted something, ranked, each with the rule's name, its count and
/// the count of all rules together.
pub open spec fn is_report(stats: Seq<LanguageStat>, root: Entry, config: Config) -> bool {
    exists|order: Seq<usize>|
        is_ranking(order, rule_totals(root, config)) && #[trigger] reports(
            stats,
            order,
            config,
            rule_totals(root, config),
            grand_total(root, config),
        )
}

/// A rule put into an order adds what it counted to the order's sum.
pub proof fn lemma_ranked_sum_insert(order: Seq<usize>, totals: Seq<nat>, at: int, rule: usize)
    requires
        0 <= at <= order.len(),
    ensures
        ranked_sum(order.insert(at, rule), totals) == ranked_sum(order, totals)
            + totals[rule as int],
    decreases order.len() - at,
{
    let longer = order.insert(at, rule);
    if at == order.len() {
        assert(longer.drop_last() =~= order);
    } else {
        assert(longer.drop_last() =~= order.drop_last().insert(at, rule));
        lemma_ranked_sum_insert(order.drop_last(), totals, at, rule);
    }
}

/// A sum is no less than a shorter one, and no less than any amount in it.
pub proof fn lemma_sum_first_grows(amounts: Seq<nat>, m: nat, n: nat)
    requires
        m <= n <= amounts.len(),
    ensures
        sum_first(amounts, m) <= sum_first(amounts, n),
        m < n ==> amounts[m as int] <= sum_first(amounts, n),
    decreases n,
{
    if m < n {
        lemma_sum_first_grows(amounts, m, (n - 1) as nat);
    }
}

/// Each rule of `order` stands before all that it precedes.
pub open spec fn is_ordered(order: Seq<usize>, totals: Seq<nat>) -> bool {
    forall|k: int, l: int|
        0 <= k < l < order.len() ==> precedes(
            totals,
            #[trigger] order[k] as int,
            #[trigger] order[l] as int,
        )
}

/// Every rule of `first` stands in `second` too.
pub open spec fn is_within(first: Seq<usize>, second: Seq<usize>) -> bool {
    forall|k: int| 0 <= k < first.len() ==> second.contains(#[trigger] first[k])
}

/// Without its last rule an order holds what it held but that rule, where
/// the other order ends with the same rule.
proof fn lemma_within_shorter(first: Seq<usize>, second: Seq<usize>, totals: Seq<nat>)
    requires
        first.len() > 0,
        second.len() > 0,
        first.last() == second.last(),
        is_ordered(first, totals),
        is_within(first, second),
    ensures
        is_ordered(first.drop_last(), totals),
        is_within(first.drop_last(), second.drop_last()),
{
    let shorter = first.drop_last();
    let other = second.drop_last();
    assert forall|k: int, l: int| 0 <= k < l < shorter.len() implies precedes(
        totals,
        #[trigger] shorter[k] as int,
        #[trigger] shorter[l] as int,
    ) by {
        assert(precedes(totals, first[k] as int, first[l] as int));
    }
    assert forall|k: int| 0 <= k < shorter.len() implies other.contains(#[trigger] shorter[k]) by {
        assert(second.contains(first[k]));
        let l = choose|l: int| 0 <= l < second.len() && second[l] == first[k];
        if l == second.len() - 1 {
            assert(precedes(totals, first[k] as int, first[first.len() - 1] as int));
        }
        assert(other[l] == shorter[k]);
    }
}

/// Two orders that hold the same rules, each with every rule before all that
/// it precedes, end with the same rule.
proof fn lemma_same_last(first: Seq<usize>, second: Seq<usize>, totals: Seq<nat>)
    requires
        first.len() > 0,
        is_ordered(first, totals),
        is_ordered(second, totals),
        is_within(first, second),
        is_within(second, first),
    ensures
        second.len() > 0,
        first.last() == second.last(),
{
    assert(second.contains(first[first.len() - 1]));
    let q = choose|l: int| 0 <= l < second.len() && second[l] == first[first.len() - 1];
    assert(first.contains(second[second.len() - 1]));
    let r = choose|k: int| 0 <= k < first.len() && first[k] == second[second.len() - 1];
    if q < second.len() - 1 {
        assert(precedes(totals, second[q] as int, second[second.len() - 1] as int));
        if r < first.len() - 1 {
            assert(precedes(totals, first[r] as int, first[first.len() - 1] as int));
        }
    }
}

/// Two orders of the same rules, each with every rule before all that it
/// precedes, are the same order.
pub proof fn lemma_order_is_unique(first: Seq<usize>, second: Seq<usize>, totals: Seq<nat>)
    requires
        is_ordered(first, totals),
        is_ordered(second, totals),
        is_within(first, second),
        is_within(second, first),
    ensures
        first == second,
    decreases first.len(),
{
    if first.len() == 0 {
        if second.len() > 0 {
            assert(first.contains(second[0]));
        }
        assert(first =~= second);
    } else {
        lemma_same_last(first, second, totals);
        lemma_within_shorter(first, second, totals);
        lemma_within_shorter(second, first, totals);
        lemma_order_is_unique(first.drop_last(), second.drop_last(), totals);
        assert(first =~= first.drop_last().push(first.last()));
        assert(second =~= second.drop_last().push(second.last()));
    }
}

/// The counts of the rules fix the ranking: two rankings of the same counts
/// are the same, so the result of a scan is one sequence and no other.
pub proof fn lemma_ranking_is_unique(first: Seq<usize>, second: Seq<usize>, totals: Seq<nat>)
    requires
        is_ranking(first, totals),
        is_ranking(second, totals),
    ensures
        first == second,
{
    assert forall|k: int| 0 <= k < first.len() implies second.contains(#[trigger] first[k]) by {
        assert(totals[first[k] as int] != 0);
        let l = choose|l: int| 0 <= l < second.len() && #[trigger] second[l] == first[k] as int;
        assert(second[l] == first[k]);
    }
    assert forall|k: int| 0 <= k < second.len() implies first.contains(#[trigger] second[k]) by {
        assert(totals[second[k] as int] != 0);
        let l = choose|l: int| 0 <= l < first.len() && #[trigger] first[l] == second[k] as int;
        assert(first[l] == second[k]);
    }
    lemma_order_is_unique(first, second, totals);
}

/// Counts, for each rule in declaration order, the bytes of the files under
/// `root` that the rule keeps, and pairs the count with the rule's name.
pub fn get_size(root: &Entry, config: &Config) -> (result: Result<Vec<(String, u64)>, StatError>)
    ensures
        match result {
            Ok(sizes) => {
                &&& is_listed(*root)
                &&& sizes@.len() == config.language@.len()
                &&& forall|i: int|
                    0 <= i < sizes@.len() ==> {
                        &&& (#[trigger] sizes@[i]).0@ == config.language@[i].lang@
                        &&& sizes@[i].1 == rule_totals(*root, *config)[i]
                    }
            },
            Err(StatError::RootUnreadable) => !is_listed(*root),
            Err(StatError::TotalOverflow) => is_listed(*root) && exists|i: int|
                0 <= i < config.language@.len() && #[trigger] rule_totals(*root, *config)[i]
                    > u64::MAX,
        },
{
    match root {
        Entry::Dir { .. } => {},
        _ => {
            return Err(StatError::RootUnreadable);
        },
    }
    let mut sizes: Vec<(String, u64)> = Vec::new();
    let mut i: usize = 0;
    while i < config.language.len()
        invariant
            i <= config.language@.len(),
            sizes@.len() == i,
            forall|j: int|
                0 <= j < i ==> {
                    &&& (#[trigger] sizes@[j]).0@ == config.language@[j].lang@
                    &&& sizes@[j].1 == rule_totals(*root, *config)[j]
                },
        decreases config.language.len() - i,
    {
        let rule = &config.language[i];
        let ignores = effective_ignores(&config.common, rule);
        match tree_size(root, &ignores, &rule.ext) {
            Some(bytes) => {
                sizes.push((rule.lang.clone(), bytes));
            },
            None => {
                assert(rule_totals(*root, *config)[i as int] > u64::MAX);
                return Err(StatError::TotalOverflow);
            },
        }
        i += 1;
    }
    Ok(sizes)
}

/// Ranks the rules that counted something: larger counts first, equal counts
/// in declaration order.
pub fn rank_rules(totals: &Vec<u64>) -> (order: Vec<usize>)
    ensures
        is_ranking(order@, amounts(totals@)),
        ranked_sum(order@, amounts(totals@)) == sum_first(amounts(totals@), totals@.len()),
{
    let mut order: Vec<usize> = Vec::new();
    let mut i: usize = 0;
    while i < totals.len()
        invariant
            i <= totals.len(),
            forall|k: int|
                0 <= k < order@.len() ==> (#[trigger] order@[k]) < i && totals@[order@[k] as int]
                    != 0,
            forall|k: int, l: int|
                0 <= k < l < order@.len() ==> precedes(
                    amounts(totals@),
                    #[trigger] order@[k] as int,
                    #[trigger] order@[l] as int,
                ),
            forall|j: int|
                0 <= j < i && #[trigger] totals@[j] != 0 ==> exists|k: int|
                    0 <= k < order@.len() && #[trigger] order@[k] == j,
            ranked_sum(order@, amounts(totals@)) == sum_first(amounts(totals@), i as nat),
        decreases totals.len() - i,
    {
        if totals[i] != 0 {
            let mut at: usize = 0;
            while at < order.len() && totals[order[at]] >= totals[i]
                invariant
                    i < totals.len(),
                    at <= order@.len(),
                    forall|k: int|
                        0 <= k < order@.len() ==> (#[trigger] order@[k]) < i,
                    forall|k: int| 0 <= k < at ==> totals@[#[trigger] order@[k] as int] >= totals@[i as int],
                decreases order.len() - at,
            {
                at += 1;
            }
            let ghost before = order@;
            order.insert(at, i);
            proof {
                lemma_ranked_sum_insert(before, amounts(totals@), at as int, i);
                assert forall|k: int, l: int| 0 <= k < l < order@.len() implies precedes(
                    amounts(totals@),
                    #[trigger] order@[k] as int,
                    #[trigger] order@[l] as int,
                ) by {
                    if l < at {
                        assert(order@[k] == before[k] && order@[l] == before[l]);
                    } else if l == at {
                        assert(order@[k] == before[k]);
                    } else if k < at {
                        assert(order@[k] == before[k] && order@[l] == before[l - 1]);
                    } else if k == at {
                        assert(order@[l] == before[l - 1]);
                        if at < l - 1 {
                            assert(precedes(
                                amounts(totals@),
                                before[at as int] as int,
                                before[l - 1] as int,
                            ));
                        }
                    } else {
                        assert(order@[k] == before[k - 1] && order@[l] == before[l - 1]);
                    }
                }
                assert forall|j: int| 0 <= j < i + 1 && #[trigger] totals@[j] != 0 implies exists|
                    k: int,
                | 0 <= k < order@.len() && #[trigger] order@[k] == j by {
                    if j == i {
                        assert(order@[at as int] == j);
                    } else {
                        let k = choose|k: int| 0 <= k < before.len() && #[trigger] before[k] == j;
                        if k < at {
                            assert(order@[k] == j);
                        } else {
                            assert(order@[k + 1] == j);
                        }
                    }
                }
            }
        }
        i += 1;
    }
    order
}

/// Reports, for the tree under `root`, each language that counted at least
/// one byte: its name, its bytes and the bytes of all reported languages.
/// Larger counts come first, equal counts in declaration order.
pub fn get_stat_with_config(root: &Entry, config: &Config) -> (result: Result<
    Vec<LanguageStat>,
    StatError,
>)
    ensures
        match result {
            Ok(stats) => {
                &&& is_listed(*root)
                &&& grand_total(*root, *config) <= u64::MAX
                &&& is_report(stats@, *root, *config)
                &&& forall|k: int| 0 <= k < stats@.len() ==> (#[trigger] stats@[k]).size != 0
                &&& forall|k: int, l: int|
                    0 <= k < l < stats@.len() ==> (#[trigger] stats@[k]).size >= (
                    #[trigger] stats@[l]).size
                &&& sizes_sum(stats@) == grand_total(*root, *config)
                &&& (stats@.len() == 0 <==> grand_total(*root, *config) == 0)
            },
            Err(StatError::RootUnreadable) => !is_listed(*root),
            Err(StatError::TotalOverflow) => is_listed(*root) && grand_total(*root, *config)
                > u64::MAX,
        },
{
    let ghost counted = rule_totals(*root, *config);
    let sizes = match get_size(root, config) {
        Ok(sizes) => sizes,
        Err(StatError::RootUnreadable) => {
            return Err(StatError::RootUnreadable);
        },
        Err(StatError::TotalOverflow) => {
            proof {
                let i = choose|i: int|
                    0 <= i < config.language@.len() && #[trigger] rule_totals(*root, *config)[i]
                        > u64::MAX;
                lemma_sum_first_grows(counted, i as nat, counted.len());
            }
            return Err(StatError::TotalOverflow);
        },
    };
    let mut totals: Vec<u64> = Vec::new();
    let mut grand: u64 = 0;
    let mut i: usize = 0;
    while i < sizes.len()
        invariant
            i <= sizes@.len(),
            is_listed(*root),
            counted == rule_totals(*root, *config),
            sizes@.len() == counted.len(),
            totals@.len() == i,
            forall|j: int| 0 <= j < sizes@.len() ==> (#[trigger] sizes@[j]).1 == counted[j],
            forall|j: int| 0 <= j < i ==> #[trigger] totals@[j] == counted[j],
            grand == sum_first(counted, i as nat),
            grand_total(*root, *config) == sum_first(counted, counted.len()),
        decreases sizes.len() - i,
    {
        let bytes: u64 = sizes[i].1;
        proof {
            lemma_sum_first_grows(counted, (i + 1) as nat, counted.len());
            assert(bytes == counted[i as int]);
            assert(sum_first(counted, (i + 1) as nat) == sum_first(counted, i as nat)
                + counted[i as int]);
        }
        match grand.checked_add(bytes) {
            Some(sum) => {
                grand = sum;
            },
            None => {
                return Err(StatError::TotalOverflow);
            },
        }
        totals.push(bytes);
        i += 1;
    }
    assert(amounts(totals@) =~= counted);
    let order = rank_rules(&totals);
    let mut stats: Vec<LanguageStat> = Vec::new();
    let mut k: usize = 0;
    while k < order.len()
        invariant
            k <= order@.len(),
            is_listed(*root),
            counted == rule_totals(*root, *config),
            grand == grand_total(*root, *config),
            totals@.len() == counted.len(),
            counted.len() == config.language@.len(),
            amounts(totals@) == counted,
            is_ranking(order@, counted),
            reports(stats@, order@.take(k as int), *config, counted, grand as nat),
            sizes_sum(stats@) == ranked_sum(order@.take(k as int), counted),
        decreases order.len() - k,
    {
        let rule: usize = order[k];
        let ghost before = stats@;
        stats.push(
            LanguageStat {
                lang: config.language[rule].lang.clone(),
                size: totals[rule],
                total: grand,
            },
        );
        proof {
            assert(amounts(totals@)[rule as int] == totals@[rule as int]);
            assert(stats@.drop_last() =~= before);
            assert(order@.take(k + 1).drop_last() =~= order@.take(k as int));
            assert forall|j: int| 0 <= j < stats@.len() implies {
                &&& (#[trigger] stats@[j]).lang@ == config.language@[order@.take(
                    k + 1,
                )[j] as int].lang@
                &&& stats@[j].size == counted[order@.take(k + 1)[j] as int]
                &&& stats@[j].total == grand as nat
            } by {
                if j < k {
                    assert(stats@[j] == before[j]);
                    assert(order@.take(k + 1)[j] == order@.take(k as int)[j]);
                }
            }
        }
        k += 1;
    }
    proof {
        assert(order@.take(k as int) =~= order@);
        assert forall|a: int, b: int| 0 <= a < b < stats@.len() implies (#[trigger] stats@[a]).size
            >= (#[trigger] stats@[b]).size by {
            assert(precedes(counted, order@[a] as int, order@[b] as int));
        }
        if stats@.len() > 0 {
            assert(stats@.last().size != 0);
        }
    }
    Ok(stats)
}

} // verus!
