use vstd::prelude::*;
use vstd::string::StringExecFns;
use crate::parser::{clause_view, symbol, Condition, ConditionView, Flag, Operator, Rule, RuleView};
use crate::number::{is_percentage, percentage_threshold, threshold};
use crate::text::{chars_of, decimal, push_decimal, str_eq};

verus! {

// ---------------------------------------------------------------------------
// The context a flag is evaluated in

/// The key=value pairs a flag is evaluated against. Each key occurs once; a
/// later value for a key replaces the earlier one.
pub struct Context {
    entries: Vec<(String, String)>,
}

pub open spec fn entries_view(es: Seq<(String, String)>) -> Seq<(Seq<char>, Seq<char>)> {
    es.map_values(|e: (String, String)| (e.0@, e.1@))
}

/// The value of `key` among `entries`, if it has one.
pub open spec fn lookup(entries: Seq<(Seq<char>, Seq<char>)>, key: Seq<char>) -> Option<Seq<char>>
    decreases entries.len(),
{
    if entries.len() == 0 {
        None
    } else if entries.last().0 == key {
        Some(entries.last().1)
    } else {
        lookup(entries.drop_last(), key)
    }
}

pub open spec fn unique_keys(entries: Seq<(Seq<char>, Seq<char>)>) -> bool {
    forall|i: int, j: int|
        0 <= i < entries.len() && 0 <= j < entries.len() && i != j ==> (#[trigger] entries[i]).0
            != (#[trigger] entries[j]).0
}

pub open spec fn keys_of(entries: Seq<(Seq<char>, Seq<char>)>) -> Seq<Seq<char>> {
    entries.map_values(|e: (Seq<char>, Seq<char>)| e.0)
}

/// The entries after setting `key` to `value`: in place if the key is there,
/// else at the end.
pub open spec fn inserted(entries: Seq<(Seq<char>, Seq<char>)>, key: Seq<char>, value: Seq<char>) -> Seq<
    (Seq<char>, Seq<char>),
> {
    if exists|i: int| 0 <= i < entries.len() && (#[trigger] entries[i]).0 == key {
        let i = choose|i: int| 0 <= i < entries.len() && (#[trigger] entries[i]).0 == key;
        entries.update(i, (key, value))
    } else {
        entries.push((key, value))
    }
}

impl View for Context {
    type V = Seq<(Seq<char>, Seq<char>)>;

    closed spec fn view(&self) -> Seq<(Seq<char>, Seq<char>)> {
        entries_view(self.entries@)
    }
}

impl Context {
    #[verifier::type_invariant]
    closed spec fn keys_unique(self) -> bool {
        unique_keys(entries_view(self.entries@))
    }

    pub fn new() -> (c: Context)
        ensures
            c@ == Seq::<(Seq<char>, Seq<char>)>::empty(),
    {
        let c = Context { entries: Vec::new() };
        assert(c@ =~= Seq::<(Seq<char>, Seq<char>)>::empty());
        c
    }

    /// Sets `key` to `value`.
    pub fn insert(&mut self, key: String, value: String)
        ensures
            final(self)@ == inserted(old(self)@, key@, value@),
            unique_keys(old(self)@),
    {
        proof {
            use_type_invariant(&*self);
        }
        let ghost before = self@;
        let mut i: usize = 0;
        while i < self.entries.len()
            invariant
                i <= self.entries@.len(),
                before == entries_view(self.entries@),
                before == old(self)@,
                unique_keys(before),
                forall|k: int| 0 <= k < i ==> (#[trigger] before[k]).0 != key@,
            decreases self.entries@.len() - i,
        {
            if self.entries[i].0 == key {
                assert(before[i as int].0 == key@);
                let ghost j = choose|j: int| 0 <= j < before.len() && (#[trigger] before[j]).0 == key@;
                assert(j == i);
                let mut entries = Vec::new();
                std::mem::swap(&mut entries, &mut self.entries);
                entries.set(i, (key, value));
                assert(entries_view(entries@) =~= before.update(i as int, (key@, value@)));
                self.entries = entries;
                return;
            }
            i = i + 1;
        }
        let ghost k = key@;
        let ghost v = value@;
        let mut entries = Vec::new();
        std::mem::swap(&mut entries, &mut self.entries);
        entries.push((key, value));
        assert(entries_view(entries@) =~= before.push((k, v)));
        self.entries = entries;
    }

    /// The value of `key`, if it has one.
    pub fn get(&self, key: &str) -> (r: Option<&String>)
        ensures
            match r {
                Some(v) => lookup(self@, key@) == Some(v@),
                None => lookup(self@, key@) is None,
            },
            unique_keys(self@),
    {
        proof {
            use_type_invariant(self);
        }
        let ghost es = self@;
        let mut i = self.entries.len();
        assert(es.take(i as int) =~= es);
        while i > 0
            invariant
                i <= self.entries@.len(),
                es == entries_view(self.entries@),
                unique_keys(es),
                lookup(es, key@) == lookup(es.take(i as int), key@),
            decreases i,
        {
            let e = &self.entries[i - 1];
            proof {
                assert(es.take(i as int).drop_last() =~= es.take(i - 1));
                assert(es.take(i as int).last() == (e.0@, e.1@));
            }
            if str_eq(e.0.as_str(), key) {
                return Some(&e.1);
            }
            i = i - 1;
        }
        None
    }

    /// The keys, in the order they were first set.
    pub fn keys(&self) -> (r: Vec<&String>)
        ensures
            r@.len() == self@.len(),
            forall|i: int| 0 <= i < r@.len() ==> (#[trigger] r@[i])@ == self@[i].0,
            unique_keys(self@),
    {
        proof {
            use_type_invariant(self);
        }
        let mut r: Vec<&String> = Vec::new();
        let mut i: usize = 0;
        while i < self.entries.len()
            invariant
                i <= self.entries@.len(),
                r@.len() == i,
                forall|k: int| 0 <= k < i ==> (#[trigger] r@[k])@ == self@[k].0,
            decreases self.entries@.len() - i,
        {
            r.push(&self.entries[i].0);
            i = i + 1;
        }
        r
    }
}


// ---------------------------------------------------------------------------
// Numbers

/// Where number texts stand in numeric order: a text's rank is below another
/// text's rank exactly when its number is the smaller, and equal ranks mean
/// equal numbers. A text without a rank is not a number that compares.
pub struct NumericOrder {
    ranks: Vec<(String, u64)>,
}

impl View for NumericOrder {
    type V = Seq<(Seq<char>, u64)>;

    closed spec fn view(&self) -> Seq<(Seq<char>, u64)> {
        self.ranks@.map_values(|e: (String, u64)| (e.0@, e.1))
    }
}

/// The rank of `text`: that of its first entry.
pub open spec fn rank_of(ranks: Seq<(Seq<char>, u64)>, text: Seq<char>) -> Option<u64>
    decreases ranks.len(),
{
    if ranks.len() == 0 {
        None
    } else if ranks[0].0 == text {
        Some(ranks[0].1)
    } else {
        rank_of(ranks.drop_first(), text)
    }
}

impl NumericOrder {
    pub fn new() -> (o: NumericOrder)
        ensures
            o@ == Seq::<(Seq<char>, u64)>::empty(),
    {
        let o = NumericOrder { ranks: Vec::new() };
        assert(o@ =~= Seq::<(Seq<char>, u64)>::empty());
        o
    }

    /// Gives `text` the rank `rank`; where a text is given several ranks, the
    /// first counts.
    pub fn add(&mut self, text: String, rank: u64)
        ensures
            final(self)@ == old(self)@.push((text@, rank)),
    {
        let ghost t = text@;
        self.ranks.push((text, rank));
        assert(self@ =~= old(self)@.push((t, rank)));
    }

    pub fn rank(&self, text: &str) -> (r: Option<u64>)
        ensures
            r == rank_of(self@, text@),
    {
        let ghost rs = self@;
        let mut i: usize = 0;
        assert(rs.skip(0) =~= rs);
        while i < self.ranks.len()
            invariant
                i <= self.ranks@.len(),
                rs == self@,
                rs.len() == self.ranks@.len(),
                rank_of(rs, text@) == rank_of(rs.skip(i as int), text@),
            decreases self.ranks@.len() - i,
        {
            proof {
                assert(rs.skip(i as int).drop_first() =~= rs.skip(i + 1));
                assert(rs.skip(i as int)[0] == rs[i as int]);
            }
            if str_eq(self.ranks[i].0.as_str(), text) {
                return Some(self.ranks[i].1);
            }
            i = i + 1;
        }
        None
    }
}

/// Whether rank `a` stands to rank `b` as `op` asks.
pub open spec fn compares(op: Operator, a: u64, b: u64) -> bool {
    match op {
        Operator::Lt => a < b,
        Operator::Le => a <= b,
        Operator::Gt => a > b,
        Operator::Ge => a >= b,
        Operator::Eq => a == b,
        Operator::NotEq => a != b,
        Operator::Rollout => false,
    }
}

/// One step of the 32-bit FNV-1a hash, over a character's code point.
pub open spec fn fnv_step(h: u32, c: char) -> u32 {
    (h ^ (c as u32)).wrapping_mul(16777619u32)
}

pub open spec fn fnv(s: Seq<char>) -> u32
    decreases s.len(),
{
    if s.len() == 0 {
        2166136261u32
    } else {
        fnv_step(fnv(s.drop_last()), s.last())
    }
}

/// The bucket, from 0 to 99, that a value falls into for a flag: a hash of
/// the flag's name and the value, so that each flag splits the values anew.
pub open spec fn bucket(flag_name: Seq<char>, value: Seq<char>) -> nat {
    (fnv(flag_name + seq!['\0'] + value) % 100) as nat
}

pub fn value_bucket(flag_name: &str, value: &str) -> (b: u32)
    ensures
        b == bucket(flag_name@, value@),
{
    let mut cs = chars_of(flag_name);
    cs.push('\0');
    let v = chars_of(value);
    let mut i: usize = 0;
    while i < v.len()
        invariant
            i <= v@.len(),
            cs@ == flag_name@ + seq!['\0'] + v@.take(i as int),
        decreases v@.len() - i,
    {
        cs.push(v[i]);
        i = i + 1;
        assert(cs@ =~= flag_name@ + seq!['\0'] + v@.take(i as int));
    }
    assert(v@.take(v@.len() as int) =~= v@);
    let mut h: u32 = 2166136261;
    let mut j: usize = 0;
    while j < cs.len()
        invariant
            j <= cs@.len(),
            h == fnv(cs@.take(j as int)),
        decreases cs@.len() - j,
    {
        proof {
            assert(cs@.take(j + 1).drop_last() =~= cs@.take(j as int));
        }
        h = (h ^ (cs[j] as u32)).wrapping_mul(16777619);
        j = j + 1;
    }
    assert(cs@.take(cs@.len() as int) =~= cs@);
    h % 100
}

// ---------------------------------------------------------------------------
// Evaluation

/// Whether a condition holds in a context: `=` when the key holds exactly the
/// value; `!=` when the key is absent or holds another value; a numeric
/// comparison when the key holds a number that compares so with the value; a
/// rollout when the key's value falls into a bucket below the percentage.
pub open spec fn condition_holds(
    c: ConditionView,
    ctx: Seq<(Seq<char>, Seq<char>)>,
    order: Seq<(Seq<char>, u64)>,
    flag_name: Seq<char>,
) -> bool {
    match lookup(ctx, c.key) {
        None => c.op == Operator::NotEq,
        Some(v) => match c.op {
            Operator::Eq => v == c.value,
            Operator::NotEq => v != c.value,
            Operator::Rollout => is_percentage(c.value) && bucket(flag_name, v) < threshold(c.value),
            _ => match (rank_of(order, v), rank_of(order, c.value)) {
                (Some(a), Some(b)) => compares(c.op, a, b),
                _ => false,
            },
        },
    }
}

/// A clause holds when all of its conditions hold.
pub open spec fn clause_holds(
    cl: Seq<ConditionView>,
    ctx: Seq<(Seq<char>, Seq<char>)>,
    order: Seq<(Seq<char>, u64)>,
    flag_name: Seq<char>,
) -> bool {
    forall|i: int| 0 <= i < cl.len() ==> condition_holds(#[trigger] cl[i], ctx, order, flag_name)
}

/// A rule matches when any of its clauses holds.
pub open spec fn rule_holds(
    r: RuleView,
    ctx: Seq<(Seq<char>, Seq<char>)>,
    order: Seq<(Seq<char>, u64)>,
    flag_name: Seq<char>,
) -> bool {
    exists|j: int|
        0 <= j < r.clauses.len() && clause_holds(#[trigger] r.clauses[j], ctx, order, flag_name)
}

/// The first rule, from `i` on, that matches.
pub open spec fn first_match(
    rules: Seq<RuleView>,
    ctx: Seq<(Seq<char>, Seq<char>)>,
    order: Seq<(Seq<char>, u64)>,
    flag_name: Seq<char>,
    i: int,
) -> Option<int>
    decreases rules.len() - i,
{
    if i < 0 || i >= rules.len() {
        None
    } else if rule_holds(rules[i], ctx, order, flag_name) {
        Some(i)
    } else {
        first_match(rules, ctx, order, flag_name, i + 1)
    }
}

fn condition_matches(c: &Condition, context: &Context, order: &NumericOrder, flag_name: &str) -> (r: bool)
    ensures
        r == condition_holds(c@, context@, order@, flag_name@),
{
    match context.get(c.key.as_str()) {
        None => match c.op {
            Operator::NotEq => true,
            _ => false,
        },
        Some(v) => match c.op {
            Operator::Eq => *v == c.value,
            Operator::NotEq => !(*v == c.value),
            Operator::Rollout => match percentage_threshold(c.value.as_str()) {
                Some(t) => (value_bucket(flag_name, v.as_str()) as u64) < t,
                None => false,
            },
            _ => match (order.rank(v.as_str()), order.rank(c.value.as_str())) {
                (Some(a), Some(b)) => match c.op {
                    Operator::Lt => a < b,
                    Operator::Le => a <= b,
                    Operator::Gt => a > b,
                    _ => a >= b,
                },
                _ => false,
            },
        },
    }
}

fn clause_matches(cl: &Vec<Condition>, context: &Context, order: &NumericOrder, flag_name: &str) -> (r: bool)
    ensures
        r == clause_holds(clause_view(cl@), context@, order@, flag_name@),
{
    let ghost cv = clause_view(cl@);
    let mut i: usize = 0;
    while i < cl.len()
        invariant
            i <= cl@.len(),
            cv == clause_view(cl@),
            forall|k: int| 0 <= k < i ==> condition_holds(#[trigger] cv[k], context@, order@, flag_name@),
        decreases cl@.len() - i,
    {
        if !condition_matches(&cl[i], context, order, flag_name) {
            assert(cv[i as int] == cl@[i as int]@);
            return false;
        }
        assert(cv[i as int] == cl@[i as int]@);
        i = i + 1;
    }
    true
}

/// Whether any clause of the rule holds in the context.
pub fn rule_matches(rule: &Rule, context: &Context, order: &NumericOrder, flag_name: &str) -> (r: bool)
    ensures
        r == rule_holds(rule@, context@, order@, flag_name@),
{
    let ghost rv = rule@;
    let mut j: usize = 0;
    while j < rule.clauses.len()
        invariant
            j <= rule.clauses@.len(),
            rv == rule@,
            rv.clauses.len() == rule.clauses@.len(),
            forall|k: int| 0 <= k < j ==> !clause_holds(#[trigger] rv.clauses[k], context@, order@, flag_name@),
        decreases rule.clauses@.len() - j,
    {
        assert(rv.clauses[j as int] == clause_view(rule.clauses@[j as int]@));
        if clause_matches(&rule.clauses[j], context, order, flag_name) {
            return true;
        }
        j = j + 1;
    }
    false
}


// ---------------------------------------------------------------------------
// Explanations

/// The parts joined, with `sep` between neighbours.
pub open spec fn join(parts: Seq<Seq<char>>, sep: Seq<char>) -> Seq<char>
    decreases parts.len(),
{
    if parts.len() == 0 {
        seq![]
    } else if parts.len() == 1 {
        parts[0]
    } else {
        join(parts.drop_last(), sep) + sep + parts.last()
    }
}

/// `key op "value"`, or `key rollout N%`.
pub open spec fn condition_text(c: ConditionView) -> Seq<char> {
    if c.op == Operator::Rollout {
        c.key + " rollout "@ + c.value + "%"@
    } else {
        c.key + " "@ + symbol(c.op) + " \""@ + c.value + "\""@
    }
}

pub open spec fn clause_text(cl: Seq<ConditionView>) -> Seq<char> {
    join(cl.map_values(|c: ConditionView| condition_text(c)), " and "@)
}

pub open spec fn rule_text(r: RuleView) -> Seq<char> {
    join(r.clauses.map_values(|cl: Seq<ConditionView>| clause_text(cl)), " or "@)
}

fn append_condition(s: &mut String, c: &Condition)
    ensures
        final(s)@ == old(s)@ + condition_text(c@),
{
    s.append(c.key.as_str());
    if c.op == Operator::Rollout {
        s.append(" rollout ");
        s.append(c.value.as_str());
        s.append("%");
    } else {
        s.append(" ");
        s.append(c.op.symbol());
        s.append(" \"");
        s.append(c.value.as_str());
        s.append("\"");
    }
    assert(final(s)@ =~= old(s)@ + condition_text(c@));
}

fn append_clause(s: &mut String, cl: &Vec<Condition>)
    ensures
        final(s)@ == old(s)@ + clause_text(clause_view(cl@)),
{
    let ghost start = s@;
    let ghost ts = clause_view(cl@).map_values(|c: ConditionView| condition_text(c));
    let mut i: usize = 0;
    assert(ts.take(0) =~= Seq::<Seq<char>>::empty());
    assert(s@ =~= start + join(ts.take(0), " and "@));
    while i < cl.len()
        invariant
            i <= cl@.len(),
            ts.len() == cl@.len(),
            ts == clause_view(cl@).map_values(|c: ConditionView| condition_text(c)),
            s@ == start + join(ts.take(i as int), " and "@),
        decreases cl@.len() - i,
    {
        let ghost before = s@;
        if i > 0 {
            s.append(" and ");
        }
        append_condition(s, &cl[i]);
        proof {
            assert(ts[i as int] == condition_text(cl@[i as int]@));
            assert(ts.take(i + 1).drop_last() =~= ts.take(i as int));
            if i == 0 {
                assert(ts.take(1) =~= seq![ts[0]]);
                assert(s@ =~= start + join(ts.take(i + 1), " and "@));
            } else {
                assert(s@ =~= start + join(ts.take(i + 1), " and "@));
            }
        }
        i = i + 1;
    }
    assert(ts.take(cl@.len() as int) =~= ts);
}

/// The rule's conditions as written: clauses joined by `or`, conditions by
/// `and`.
pub fn describe_conditions(rule: &Rule) -> (r: String)
    ensures
        r@ == rule_text(rule@),
{
    let ghost ts = rule@.clauses.map_values(|cl: Seq<ConditionView>| clause_text(cl));
    let mut s = String::new();
    let mut j: usize = 0;
    assert(ts.take(0) =~= Seq::<Seq<char>>::empty());
    while j < rule.clauses.len()
        invariant
            j <= rule.clauses@.len(),
            ts.len() == rule.clauses@.len(),
            ts == rule@.clauses.map_values(|cl: Seq<ConditionView>| clause_text(cl)),
            s@ == join(ts.take(j as int), " or "@),
        decreases rule.clauses@.len() - j,
    {
        if j > 0 {
            s.append(" or ");
        }
        let ghost before = s@;
        append_clause(&mut s, &rule.clauses[j]);
        proof {
            assert(rule@.clauses[j as int] == clause_view(rule.clauses@[j as int]@));
            assert(ts.take(j + 1).drop_last() =~= ts.take(j as int));
            if j == 0 {
                assert(ts.take(1) =~= seq![ts[0]]);
                assert(s@ =~= join(ts.take(j + 1), " or "@));
            } else {
                assert(s@ =~= join(ts.take(j + 1), " or "@));
            }
        }
        j = j + 1;
    }
    assert(ts.take(rule.clauses@.len() as int) =~= ts);
    s
}

/// Why a flag evaluates as it does.
pub open spec fn reason_text(rules: Seq<RuleView>, m: Option<int>) -> Seq<char> {
    match m {
        Some(i) => "rule "@ + decimal((i + 1) as nat) + " matched ("@ + rule_text(rules[i]) + ")"@,
        None => "no rule matched, fell through to default"@,
    }
}

/// The value of a flag in a context.
pub open spec fn outcome(
    f: crate::parser::FlagView,
    ctx: Seq<(Seq<char>, Seq<char>)>,
    order: Seq<(Seq<char>, u64)>,
) -> bool {
    match first_match(f.rules, ctx, order, f.name, 0) {
        Some(i) => f.rules[i].effect,
        None => f.default,
    }
}

/// Evaluates the rules in order and returns both the outcome and a plain
/// explanation of why that outcome was reached.
pub fn evaluate(flag: &Flag, context: &Context, order: &NumericOrder) -> (r: (bool, String))
    ensures
        r.0 == outcome(flag@, context@, order@),
        r.1@ == reason_text(flag@.rules, first_match(flag@.rules, context@, order@, flag@.name, 0)),
{
    let ghost rules = flag@.rules;
    let mut i: usize = 0;
    while i < flag.rules.len()
        invariant
            i <= flag.rules@.len(),
            rules == flag@.rules,
            rules.len() == flag.rules@.len(),
            first_match(rules, context@, order@, flag@.name, 0) == first_match(
                rules,
                context@,
                order@,
                flag@.name,
                i as int,
            ),
        decreases flag.rules@.len() - i,
    {
        let rule = &flag.rules[i];
        assert(rules[i as int] == rule@);
        if rule_matches(rule, context, order, flag.name.as_str()) {
            let mut reason = String::from_str("rule ");
            push_decimal(&mut reason, i + 1);
            reason.append(" matched (");
            let d = describe_conditions(rule);
            reason.append(d.as_str());
            reason.append(")");
            return (rule.effect, reason);
        }
        i = i + 1;
    }
    (flag.default, String::from_str("no rule matched, fell through to default"))
}


// ---------------------------------------------------------------------------
// Laws

proof fn lemma_lookup_update(
    es: Seq<(Seq<char>, Seq<char>)>,
    i: int,
    k: Seq<char>,
    v: Seq<char>,
    k2: Seq<char>,
)
    requires
        unique_keys(es),
        0 <= i < es.len(),
        es[i].0 == k,
    ensures
        lookup(es.update(i, (k, v)), k) == Some(v),
        k2 != k ==> lookup(es.update(i, (k, v)), k2) == lookup(es, k2),
    decreases es.len(),
{
    let u = es.update(i, (k, v));
    if i < es.len() - 1 {
        assert(es.last().0 != k);
        assert(u.drop_last() =~= es.drop_last().update(i, (k, v)));
        assert(unique_keys(es.drop_last()));
        lemma_lookup_update(es.drop_last(), i, k, v, k2);
    } else {
        assert(u.drop_last() =~= es.drop_last());
    }
}

/// Setting a key in a context: the key then holds the new value, every other
/// key keeps its value, and each key still occurs once.
pub proof fn law_context_insert(
    entries: Seq<(Seq<char>, Seq<char>)>,
    key: Seq<char>,
    value: Seq<char>,
    other: Seq<char>,
)
    requires
        unique_keys(entries),
    ensures
        lookup(inserted(entries, key, value), key) == Some(value),
        other != key ==> lookup(inserted(entries, key, value), other) == lookup(entries, other),
        unique_keys(inserted(entries, key, value)),
{
    if exists|i: int| 0 <= i < entries.len() && (#[trigger] entries[i]).0 == key {
        let i = choose|i: int| 0 <= i < entries.len() && (#[trigger] entries[i]).0 == key;
        lemma_lookup_update(entries, i, key, value, other);
        let u = entries.update(i, (key, value));
        assert forall|a: int, b: int|
            0 <= a < u.len() && 0 <= b < u.len() && a != b implies (#[trigger] u[a]).0 != (
            #[trigger] u[b]).0 by {
            assert(entries[a].0 == u[a].0);
            assert(entries[b].0 == u[b].0);
        }
    } else {
        let u = entries.push((key, value));
        assert(u.drop_last() =~= entries);
        assert forall|a: int, b: int|
            0 <= a < u.len() && 0 <= b < u.len() && a != b implies (#[trigger] u[a]).0 != (
            #[trigger] u[b]).0 by {
            if a < entries.len() {
                assert(u[a] == entries[a]);
            }
            if b < entries.len() {
                assert(u[b] == entries[b]);
            }
        }
    }
}

/// `!=` holds exactly where `=` with the same key and value does not: when
/// the key is absent or holds another value.
pub proof fn law_not_equal_is_negation(
    key: Seq<char>,
    value: Seq<char>,
    ctx: Seq<(Seq<char>, Seq<char>)>,
    order: Seq<(Seq<char>, u64)>,
    flag_name: Seq<char>,
)
    ensures
        condition_holds(ConditionView { key, value, op: Operator::NotEq }, ctx, order, flag_name)
            == !condition_holds(ConditionView { key, value, op: Operator::Eq }, ctx, order, flag_name),
        condition_holds(ConditionView { key, value, op: Operator::NotEq }, ctx, order, flag_name) == (lookup(
            ctx,
            key,
        ) != Some(value)),
{
}

/// A numeric comparison on a key that is absent, or that holds a text without
/// a rank, does not hold.
pub proof fn law_numeric_needs_a_number(
    c: ConditionView,
    ctx: Seq<(Seq<char>, Seq<char>)>,
    order: Seq<(Seq<char>, u64)>,
    flag_name: Seq<char>,
)
    requires
        crate::parser::is_numeric(c.op),
        lookup(ctx, c.key) is None || rank_of(order, lookup(ctx, c.key).unwrap()) is None,
    ensures
        !condition_holds(c, ctx, order, flag_name),
{
}

/// Rules are tried top to bottom: the one chosen matches and none before it
/// does; when none is chosen, none matches.
pub proof fn law_first_match(
    rules: Seq<RuleView>,
    ctx: Seq<(Seq<char>, Seq<char>)>,
    order: Seq<(Seq<char>, u64)>,
    flag_name: Seq<char>,
    from: int,
)
    requires
        0 <= from,
    ensures
        first_match(rules, ctx, order, flag_name, from) matches Some(i) ==> from <= i < rules.len()
            && rule_holds(rules[i], ctx, order, flag_name) && forall|k: int|
            from <= k < i ==> !rule_holds(#[trigger] rules[k], ctx, order, flag_name),
        first_match(rules, ctx, order, flag_name, from) is None ==> forall|k: int|
            from <= k < rules.len() ==> !rule_holds(#[trigger] rules[k], ctx, order, flag_name),
    decreases rules.len() - from,
{
    if from < rules.len() && !rule_holds(rules[from], ctx, order, flag_name) {
        law_first_match(rules, ctx, order, flag_name, from + 1);
    }
}

/// A rollout decides by the key's value alone: two contexts in which the key
/// holds the same value (or is absent in both) get the same answer for a flag.
pub proof fn law_rollout_is_stable(
    key: Seq<char>,
    percent: Seq<char>,
    ctx1: Seq<(Seq<char>, Seq<char>)>,
    ctx2: Seq<(Seq<char>, Seq<char>)>,
    order1: Seq<(Seq<char>, u64)>,
    order2: Seq<(Seq<char>, u64)>,
    flag_name: Seq<char>,
)
    requires
        lookup(ctx1, key) == lookup(ctx2, key),
    ensures
        condition_holds(ConditionView { key, value: percent, op: Operator::Rollout }, ctx1, order1, flag_name)
            == condition_holds(ConditionView { key, value: percent, op: Operator::Rollout }, ctx2, order2, flag_name),
{
}

/// A rollout of 0% holds for no value, one of 100% for every value; a rollout
/// never holds where the key is absent.
pub proof fn law_rollout_bounds(
    c: ConditionView,
    ctx: Seq<(Seq<char>, Seq<char>)>,
    order: Seq<(Seq<char>, u64)>,
    flag_name: Seq<char>,
)
    requires
        c.op == Operator::Rollout,
        is_percentage(c.value),
    ensures
        lookup(ctx, c.key) is None ==> !condition_holds(c, ctx, order, flag_name),
        threshold(c.value) == 0 ==> !condition_holds(c, ctx, order, flag_name),
        threshold(c.value) >= 100 ==> condition_holds(c, ctx, order, flag_name) == (lookup(
            ctx,
            c.key,
        ) is Some),
{
}

/// Raising a rollout's percentage keeps every value that was in: whatever a
/// smaller rollout on a key turns on, a larger one on the same key does too.
pub proof fn law_rollout_monotone(
    key: Seq<char>,
    smaller: Seq<char>,
    larger: Seq<char>,
    ctx: Seq<(Seq<char>, Seq<char>)>,
    order: Seq<(Seq<char>, u64)>,
    flag_name: Seq<char>,
)
    requires
        is_percentage(smaller),
        is_percentage(larger),
        threshold(smaller) <= threshold(larger),
    ensures
        condition_holds(ConditionView { key, value: smaller, op: Operator::Rollout }, ctx, order, flag_name)
            ==> condition_holds(ConditionView { key, value: larger, op: Operator::Rollout }, ctx, order, flag_name),
{
}

/// A numeric comparison on a key whose text has a rank, against a value that
/// has one, holds exactly as the ranks compare: `<` when the key's rank is
/// below the value's, `<=` when at most, `>` when above, `>=` when at least.
pub proof fn law_numeric_comparisons(
    key: Seq<char>,
    value: Seq<char>,
    ctx: Seq<(Seq<char>, Seq<char>)>,
    order: Seq<(Seq<char>, u64)>,
    flag_name: Seq<char>,
    v: Seq<char>,
    a: u64,
    b: u64,
)
    requires
        lookup(ctx, key) == Some(v),
        rank_of(order, v) == Some(a),
        rank_of(order, value) == Some(b),
    ensures
        condition_holds(ConditionView { key, value, op: Operator::Lt }, ctx, order, flag_name) == (a < b),
        condition_holds(ConditionView { key, value, op: Operator::Le }, ctx, order, flag_name) == (a <= b),
        condition_holds(ConditionView { key, value, op: Operator::Gt }, ctx, order, flag_name) == (a > b),
        condition_holds(ConditionView { key, value, op: Operator::Ge }, ctx, order, flag_name) == (a >= b),
{
}

/// `=` holds exactly when the key holds the value, compared as plain text.
pub proof fn law_equal_is_text_equality(
    key: Seq<char>,
    value: Seq<char>,
    ctx: Seq<(Seq<char>, Seq<char>)>,
    order: Seq<(Seq<char>, u64)>,
    flag_name: Seq<char>,
)
    ensures
        condition_holds(ConditionView { key, value, op: Operator::Eq }, ctx, order, flag_name) == (lookup(
            ctx,
            key,
        ) == Some(value)),
{
}

/// A clause holds exactly when every one of its conditions holds, and a rule
/// exactly when at least one of its clauses, wherever it stands, holds.
pub proof fn law_and_within_or(
    r: RuleView,
    ctx: Seq<(Seq<char>, Seq<char>)>,
    order: Seq<(Seq<char>, u64)>,
    flag_name: Seq<char>,
)
    ensures
        forall|j: int|
            0 <= j < r.clauses.len() ==> (clause_holds(#[trigger] r.clauses[j], ctx, order, flag_name)
                <==> forall|i: int|
                0 <= i < r.clauses[j].len() ==> condition_holds(
                    #[trigger] r.clauses[j][i],
                    ctx,
                    order,
                    flag_name,
                )),
        forall|j: int|
            0 <= j < r.clauses.len() && clause_holds(#[trigger] r.clauses[j], ctx, order, flag_name)
                ==> rule_holds(r, ctx, order, flag_name),
        rule_holds(r, ctx, order, flag_name) ==> exists|j: int|
            0 <= j < r.clauses.len() && clause_holds(#[trigger] r.clauses[j], ctx, order, flag_name),
{
}

/// A flag is what the first rule, top to bottom, that matches makes it, and
/// its default when no rule matches.
pub proof fn law_outcome(
    f: crate::parser::FlagView,
    ctx: Seq<(Seq<char>, Seq<char>)>,
    order: Seq<(Seq<char>, u64)>,
    i: int,
)
    requires
        0 <= i < f.rules.len(),
        rule_holds(f.rules[i], ctx, order, f.name),
        forall|k: int| 0 <= k < i ==> !rule_holds(#[trigger] f.rules[k], ctx, order, f.name),
    ensures
        outcome(f, ctx, order) == f.rules[i].effect,
        first_match(f.rules, ctx, order, f.name, 0) == Some(i),
{
    law_first_match(f.rules, ctx, order, f.name, 0);
    if let Some(j) = first_match(f.rules, ctx, order, f.name, 0) {
        if j < i {
            assert(!rule_holds(f.rules[j], ctx, order, f.name));
        } else if j > i {
            assert(!rule_holds(f.rules[i], ctx, order, f.name));
        }
    } else {
        assert(!rule_holds(f.rules[i], ctx, order, f.name));
    }
}

/// With no rule that matches, a flag keeps its default.
pub proof fn law_default_when_nothing_matches(
    f: crate::parser::FlagView,
    ctx: Seq<(Seq<char>, Seq<char>)>,
    order: Seq<(Seq<char>, u64)>,
)
    requires
        forall|k: int| 0 <= k < f.rules.len() ==> !rule_holds(#[trigger] f.rules[k], ctx, order, f.name),
    ensures
        outcome(f, ctx, order) == f.default,
        first_match(f.rules, ctx, order, f.name, 0) is None,
{
    law_first_match(f.rules, ctx, order, f.name, 0);
    if let Some(j) = first_match(f.rules, ctx, order, f.name, 0) {
        assert(!rule_holds(f.rules[j], ctx, order, f.name));
    }
}

} // verus!
