use vstd::prelude::*;
use vstd::string::StringExecFns;
use crate::error::{is_suggestion, suggest, texts};
use crate::eval::{clause_holds, condition_holds, first_match, join, keys_of, lookup, outcome, rule_holds, Context};
use crate::number::index_of;
use crate::parser::{ConditionView, Flag, FlagView, RuleView};
use crate::text::{chars_of, str_eq, string_of};

verus! {

pub open spec fn clause_keys(cl: Seq<ConditionView>) -> Seq<Seq<char>> {
    cl.map_values(|c: ConditionView| c.key)
}

pub open spec fn clauses_keys(cls: Seq<Seq<ConditionView>>) -> Seq<Seq<char>>
    decreases cls.len(),
{
    if cls.len() == 0 {
        seq![]
    } else {
        clauses_keys(cls.drop_last()) + clause_keys(cls.last())
    }
}

pub open spec fn rules_keys(rules: Seq<RuleView>) -> Seq<Seq<char>>
    decreases rules.len(),
{
    if rules.len() == 0 {
        seq![]
    } else {
        rules_keys(rules.drop_last()) + clauses_keys(rules.last().clauses)
    }
}

/// The context keys that the flag's rules name, in the order they are written.
pub open spec fn known_keys(f: FlagView) -> Seq<Seq<char>> {
    rules_keys(f.rules)
}

pub open spec fn warning_text(key: Seq<char>, flag_name: Seq<char>, near: Seq<char>) -> Seq<char> {
    "warning: `"@ + key + "` is not used by any rule on `"@ + flag_name + "` (did you mean `"@ + near
        + "`?)"@
}

/// The warning for a context key that no rule names, when a named key is
/// near enough to be the one meant.
pub open spec fn key_warning(key: Seq<char>, known: Seq<Seq<char>>, flag_name: Seq<char>) -> Option<
    Seq<char>,
> {
    if known.contains(key) {
        None
    } else if exists|j: int| is_suggestion(key, known, j) {
        let j = choose|j: int| is_suggestion(key, known, j);
        Some(warning_text(key, flag_name, known[j]))
    } else {
        None
    }
}

pub open spec fn warnings_for(keys: Seq<Seq<char>>, known: Seq<Seq<char>>, flag_name: Seq<char>) -> Seq<
    Seq<char>,
>
    decreases keys.len(),
{
    if keys.len() == 0 {
        seq![]
    } else {
        warnings_for(keys.drop_last(), known, flag_name) + match key_warning(
            keys.last(),
            known,
            flag_name,
        ) {
            Some(w) => seq![w],
            None => seq![],
        }
    }
}

pub open spec fn strings_view(v: Seq<String>) -> Seq<Seq<char>> {
    v.map_values(|s: String| s@)
}

/// The keys the flag's rules name.
fn flag_keys(flag: &Flag) -> (r: Vec<&str>)
    ensures
        texts(r@) == known_keys(flag@),
{
    let ghost rules = flag@.rules;
    let mut r: Vec<&str> = Vec::new();
    let mut i: usize = 0;
    assert(rules.take(0) =~= Seq::<RuleView>::empty());
    assert(texts(r@) =~= Seq::<Seq<char>>::empty());
    while i < flag.rules.len()
        invariant
            i <= flag.rules@.len(),
            rules == flag@.rules,
            rules.len() == flag.rules@.len(),
            texts(r@) == rules_keys(rules.take(i as int)),
        decreases flag.rules@.len() - i,
    {
        let rule = &flag.rules[i];
        let ghost cls = rule@.clauses;
        let ghost base = texts(r@);
        let mut j: usize = 0;
        assert(cls.take(0) =~= Seq::<Seq<ConditionView>>::empty());
        assert(texts(r@) =~= base + clauses_keys(cls.take(0)));
        while j < rule.clauses.len()
            invariant
                j <= rule.clauses@.len(),
                cls == rule@.clauses,
                cls.len() == rule.clauses@.len(),
                texts(r@) == base + clauses_keys(cls.take(j as int)),
            decreases rule.clauses@.len() - j,
        {
            let clause = &rule.clauses[j];
            let ghost cl = cls[j as int];
            let ghost base2 = texts(r@);
            assert(cl == crate::parser::clause_view(clause@));
            let mut k: usize = 0;
            assert(texts(r@) =~= base2 + clause_keys(cl.take(0)));
            while k < clause.len()
                invariant
                    k <= clause@.len(),
                    cl == crate::parser::clause_view(clause@),
                    cl.len() == clause@.len(),
                    texts(r@) == base2 + clause_keys(cl.take(k as int)),
                decreases clause@.len() - k,
            {
                let ghost before = r@;
                r.push(clause[k].key.as_str());
                assert(cl[k as int] == clause@[k as int]@);
                assert(texts(r@) =~= texts(before).push(clause@[k as int].key@));
                assert(clause_keys(cl.take(k + 1)) =~= clause_keys(cl.take(k as int)).push(
                    cl[k as int].key,
                ));
                assert(texts(r@) =~= base2 + clause_keys(cl.take(k + 1)));
                k = k + 1;
            }
            assert(cl.take(clause@.len() as int) =~= cl);
            assert(cls.take(j + 1).drop_last() =~= cls.take(j as int));
            assert(texts(r@) =~= base + clauses_keys(cls.take(j + 1)));
            j = j + 1;
        }
        assert(cls.take(rule.clauses@.len() as int) =~= cls);
        assert(rules.take(i + 1).drop_last() =~= rules.take(i as int));
        assert(rules[i as int] == rule@);
        i = i + 1;
    }
    assert(rules.take(flag.rules@.len() as int) =~= rules);
    r
}

fn contains_text(v: &Vec<&str>, s: &str) -> (r: bool)
    ensures
        r == texts(v@).contains(s@),
{
    let mut i: usize = 0;
    while i < v.len()
        invariant
            i <= v@.len(),
            forall|k: int| 0 <= k < i ==> (#[trigger] v@[k])@ != s@,
        decreases v@.len() - i,
    {
        if str_eq(v[i], s) {
            assert(texts(v@)[i as int] == s@);
            return true;
        }
        i = i + 1;
    }
    assert forall|k: int| 0 <= k < texts(v@).len() implies texts(v@)[k] != s@ by {
        assert(texts(v@)[k] == v@[k]@);
    }
    false
}

/// Warnings for the context keys that no rule of the flag names, where a
/// named key is near enough to be the one meant.
pub fn warn_on_unknown_keys(flag: &Flag, context: &Context) -> (r: Vec<String>)
    ensures
        strings_view(r@) == warnings_for(keys_of(context@), known_keys(flag@), flag@.name),
{
    let known = flag_keys(flag);
    let keys = context.keys();
    let ghost ks = keys_of(context@);
    let ghost kn = known_keys(flag@);
    let mut out: Vec<String> = Vec::new();
    let mut i: usize = 0;
    assert(ks.take(0) =~= Seq::<Seq<char>>::empty());
    assert(strings_view(out@) =~= Seq::<Seq<char>>::empty());
    while i < keys.len()
        invariant
            i <= keys@.len(),
            keys@.len() == ks.len(),
            ks == keys_of(context@),
            kn == texts(known@),
            forall|k: int| 0 <= k < keys@.len() ==> (#[trigger] keys@[k])@ == ks[k],
            strings_view(out@) == warnings_for(ks.take(i as int), kn, flag@.name),
        decreases keys@.len() - i,
    {
        let key = keys[i];
        let ghost before = strings_view(out@);
        proof {
            assert(ks.take(i + 1).drop_last() =~= ks.take(i as int));
            assert(ks.take(i + 1).last() == ks[i as int]);
            assert(key@ == ks[i as int]);
        }
        if !contains_text(&known, key.as_str()) {
            match suggest(key.as_str(), known.as_slice()) {
                Some(near) => {
                    let mut w = String::from_str("warning: `");
                    w.append(key.as_str());
                    w.append("` is not used by any rule on `");
                    w.append(flag.name.as_str());
                    w.append("` (did you mean `");
                    w.append(near);
                    w.append("`?)");
                    proof {
                        let k = choose|k: int|
                            is_suggestion(key@, texts(known@), k) && near@ == (
                            #[trigger] known@[k])@;
                        let j = choose|j: int| is_suggestion(key@, kn, j);
                        crate::error::law_suggestion_unique(key@, kn, j, k);
                        assert(kn[k] == near@);
                    }
                    out.push(w);
                    assert(strings_view(out@) =~= before.push(w@));
                },
                None => {
                    proof {
                        if exists|j: int| is_suggestion(key@, kn, j) {
                            let j = choose|j: int| is_suggestion(key@, kn, j);
                            assert(kn[j] == known@[j]@);
                        }
                    }
                    assert(strings_view(out@) =~= before + seq![]);
                },
            }
        } else {
            assert(strings_view(out@) =~= before + seq![]);
        }
        i = i + 1;
    }
    assert(ks.take(keys@.len() as int) =~= ks);
    out
}


pub open spec fn flag_names(flags: Seq<FlagView>) -> Seq<Seq<char>> {
    flags.map_values(|f: FlagView| f.name)
}

/// The first flag with the given name.
pub fn find_flag(flags: &Vec<Flag>, name: &str) -> (r: Option<usize>)
    ensures
        match r {
            Some(i) => i < flags@.len() && flags@[i as int].name@ == name@ && forall|k: int|
                0 <= k < i ==> (#[trigger] flags@[k]).name@ != name@,
            None => forall|k: int| 0 <= k < flags@.len() ==> (#[trigger] flags@[k]).name@ != name@,
        },
{
    let mut i: usize = 0;
    while i < flags.len()
        invariant
            i <= flags@.len(),
            forall|k: int| 0 <= k < i ==> (#[trigger] flags@[k]).name@ != name@,
        decreases flags@.len() - i,
    {
        if str_eq(flags[i].name.as_str(), name) {
            return Some(i);
        }
        i = i + 1;
    }
    None
}

fn names_of(flags: &Vec<Flag>) -> (r: Vec<&str>)
    ensures
        texts(r@) == flag_names(crate::parser::flags_view(flags@)),
{
    let mut r: Vec<&str> = Vec::new();
    let mut i: usize = 0;
    while i < flags.len()
        invariant
            i <= flags@.len(),
            r@.len() == i,
            forall|k: int| 0 <= k < i ==> (#[trigger] r@[k])@ == flags@[k].name@,
        decreases flags@.len() - i,
    {
        r.push(flags[i].name.as_str());
        i = i + 1;
    }
    assert(texts(r@) =~= flag_names(crate::parser::flags_view(flags@)));
    r
}

/// What is said when no flag has the name asked for: the name, the closest
/// defined name if one is near, and the defined names.
pub open spec fn missing_flag_text(names: Seq<Seq<char>>, name: Seq<char>, path: Seq<char>) -> Seq<
    char,
> {
    "error: no flag named `"@ + name + "` in "@ + path + "\n"@ + (if exists|j: int|
        is_suggestion(name, names, j) {
        "  did you mean `"@ + names[choose|j: int| is_suggestion(name, names, j)] + "`?\n"@
    } else {
        seq![]
    }) + (if names.len() > 0 {
        "  defined flags: "@ + join(names, ", "@) + "\n"@
    } else {
        seq![]
    })
}

pub fn missing_flag_message(flags: &Vec<Flag>, name: &str, path: &str) -> (r: String)
    ensures
        r@ == missing_flag_text(flag_names(crate::parser::flags_view(flags@)), name@, path@),
{
    let names = names_of(flags);
    let ghost ns = texts(names@);
    let mut m = String::from_str("error: no flag named `");
    m.append(name);
    m.append("` in ");
    m.append(path);
    m.append("\n");
    let ghost head = m@;
    match suggest(name, names.as_slice()) {
        Some(near) => {
            m.append("  did you mean `");
            m.append(near);
            m.append("`?\n");
            proof {
                let k = choose|k: int|
                    is_suggestion(name@, ns, k) && near@ == (#[trigger] names@[k])@;
                let j = choose|j: int| is_suggestion(name@, ns, j);
                crate::error::law_suggestion_unique(name@, ns, j, k);
                assert(ns[k] == near@);
            }
        },
        None => {
            proof {
                if exists|j: int| is_suggestion(name@, ns, j) {
                    let j = choose|j: int| is_suggestion(name@, ns, j);
                    assert(ns[j] == names@[j]@);
                }
            }
        },
    }
    let ghost mid = m@;
    if names.len() > 0 {
        m.append("  defined flags: ");
        let mut i: usize = 0;
        let ghost base = m@;
        assert(ns.take(0) =~= Seq::<Seq<char>>::empty());
        assert(m@ =~= base + join(ns.take(0), ", "@));
        while i < names.len()
            invariant
                i <= names@.len(),
                ns == texts(names@),
                ns.len() == names@.len(),
                m@ == base + join(ns.take(i as int), ", "@),
            decreases names@.len() - i,
        {
            if i > 0 {
                m.append(", ");
            }
            m.append(names[i]);
            proof {
                assert(ns[i as int] == names@[i as int]@);
                assert(ns.take(i + 1).drop_last() =~= ns.take(i as int));
                if i == 0 {
                    assert(ns.take(1) =~= seq![ns[0]]);
                }
                assert(m@ =~= base + join(ns.take(i + 1), ", "@));
            }
            i = i + 1;
        }
        assert(ns.take(names@.len() as int) =~= ns);
        m.append("\n");
    }
    assert(m@ =~= missing_flag_text(ns, name@, path@));
    m
}

/// A `key=value` argument split at its first `=`.
pub open spec fn context_arg(arg: Seq<char>) -> Option<(Seq<char>, Seq<char>)> {
    let k = index_of(arg, '=');
    if k < arg.len() {
        Some((arg.take(k), arg.skip(k + 1)))
    } else {
        None
    }
}

pub proof fn lemma_index_of(s: Seq<char>, c: char)
    ensures
        0 <= index_of(s, c) <= s.len(),
        index_of(s, c) < s.len() ==> s[index_of(s, c)] == c,
        forall|i: int| 0 <= i < index_of(s, c) ==> s[i] != c,
    decreases s.len(),
{
    if s.len() > 0 && s[0] != c {
        lemma_index_of(s.drop_first(), c);
        assert forall|i: int| 0 <= i < index_of(s, c) implies s[i] != c by {
            if i > 0 {
                assert(s[i] == s.drop_first()[i - 1]);
            }
        }
    }
}

pub fn parse_context_arg(arg: &str) -> (r: Option<(String, String)>)
    ensures
        match r {
            Some((k, v)) => context_arg(arg@) == Some((k@, v@)),
            None => context_arg(arg@) is None,
        },
{
    let cs = chars_of(arg);
    let mut i: usize = 0;
    assert(cs@.skip(0) =~= cs@);
    while i < cs.len() && cs[i] != '='
        invariant
            i <= cs@.len(),
            cs@ == arg@,
            index_of(cs@, '=') == i + index_of(cs@.skip(i as int), '='),
        decreases cs@.len() - i,
    {
        assert(cs@.skip(i as int).drop_first() =~= cs@.skip(i + 1));
        i = i + 1;
    }
    if i == cs.len() {
        assert(cs@.skip(i as int).len() == 0);
        return None;
    }
    let mut key: Vec<char> = Vec::new();
    let mut j: usize = 0;
    while j < i
        invariant
            j <= i < cs@.len(),
            key@ == cs@.take(j as int),
        decreases i - j,
    {
        key.push(cs[j]);
        j = j + 1;
        assert(key@ =~= cs@.take(j as int));
    }
    let mut value: Vec<char> = Vec::new();
    let mut j: usize = i + 1;
    while j < cs.len()
        invariant
            i + 1 <= j <= cs@.len(),
            value@ == cs@.subrange(i + 1, j as int),
        decreases cs@.len() - j,
    {
        value.push(cs[j]);
        j = j + 1;
        assert(value@ =~= cs@.subrange(i + 1, j as int));
    }
    assert(value@ =~= cs@.skip(i + 1));
    Some((string_of(&key), string_of(&value)))
}

/// How the tool is run.
pub fn usage() -> (r: String)
    ensures
        r@ == "usage: flagq <flags-file> <flag-name> [key=value ...]\n\nexample:\n  flagq flags.txt new-checkout plan=pro country=us\n"@,
{
    String::from_str(
        "usage: flagq <flags-file> <flag-name> [key=value ...]\n\nexample:\n  flagq flags.txt new-checkout plan=pro country=us\n",
    )
}

/// The answer printed for a flag: its state, and why.
pub open spec fn outcome_text(name: Seq<char>, on: bool, reason: Seq<char>) -> Seq<char> {
    name + ": "@ + (if on {
        "on"@
    } else {
        "off"@
    }) + "\nreason: "@ + reason + "\n"@
}

pub fn outcome_report(name: &str, on: bool, reason: &str) -> (r: String)
    ensures
        r@ == outcome_text(name@, on, reason@),
{
    let mut r = String::from_str(name);
    r.append(": ");
    if on {
        r.append("on");
    } else {
        r.append("off");
    }
    r.append("\nreason: ");
    r.append(reason);
    r.append("\n");
    r
}

/// An argument with an `=` splits into a key without `=`, the first `=`, and
/// the value; one without an `=` does not split.
pub proof fn law_context_arg(arg: Seq<char>)
    ensures
        context_arg(arg) matches Some((k, v)) ==> arg == k + "="@ + v && !k.contains('='),
        context_arg(arg) is None ==> !arg.contains('='),
{
    lemma_index_of(arg, '=');
    let i = index_of(arg, '=');
    if i < arg.len() {
        reveal_strlit("=");
        assert(arg =~= arg.take(i) + "="@ + arg.skip(i + 1));
        assert forall|j: int| 0 <= j < arg.take(i).len() implies arg.take(i)[j] != '=' by {
            assert(arg.take(i)[j] == arg[j]);
        }
    }
}

proof fn lemma_clauses_keys_contain(cls: Seq<Seq<ConditionView>>, j: int, k: int)
    requires
        0 <= j < cls.len(),
        0 <= k < cls[j].len(),
    ensures
        clauses_keys(cls).contains(cls[j][k].key),
    decreases cls.len(),
{
    let pre = clauses_keys(cls.drop_last());
    let w = clause_keys(cls.last());
    assert(clauses_keys(cls) == pre + w);
    if j == cls.len() - 1 {
        assert(w[k] == cls[j][k].key);
        assert((pre + w)[pre.len() + k] == w[k]);
    } else {
        assert(cls.drop_last()[j] == cls[j]);
        lemma_clauses_keys_contain(cls.drop_last(), j, k);
        let x = choose|x: int| 0 <= x < pre.len() && pre[x] == cls[j][k].key;
        assert((pre + w)[x] == pre[x]);
    }
}

proof fn lemma_rules_keys_contain(rules: Seq<RuleView>, i: int, j: int, k: int)
    requires
        0 <= i < rules.len(),
        0 <= j < rules[i].clauses.len(),
        0 <= k < rules[i].clauses[j].len(),
    ensures
        rules_keys(rules).contains(rules[i].clauses[j][k].key),
    decreases rules.len(),
{
    let pre = rules_keys(rules.drop_last());
    let w = clauses_keys(rules.last().clauses);
    assert(rules_keys(rules) == pre + w);
    if i == rules.len() - 1 {
        lemma_clauses_keys_contain(rules.last().clauses, j, k);
        let x = choose|x: int| 0 <= x < w.len() && w[x] == rules[i].clauses[j][k].key;
        assert((pre + w)[pre.len() + x] == w[x]);
    } else {
        assert(rules.drop_last()[i] == rules[i]);
        lemma_rules_keys_contain(rules.drop_last(), i, j, k);
        let x = choose|x: int| 0 <= x < pre.len() && pre[x] == rules[i].clauses[j][k].key;
        assert((pre + w)[x] == pre[x]);
    }
}

proof fn lemma_first_match_same(
    f: FlagView,
    ctx1: Seq<(Seq<char>, Seq<char>)>,
    ctx2: Seq<(Seq<char>, Seq<char>)>,
    order: Seq<(Seq<char>, u64)>,
    from: int,
)
    requires
        forall|k: Seq<char>| known_keys(f).contains(k) ==> lookup(ctx1, k) == lookup(ctx2, k),
    ensures
        first_match(f.rules, ctx1, order, f.name, from) == first_match(f.rules, ctx2, order, f.name, from),
    decreases f.rules.len() - from,
{
    if 0 <= from < f.rules.len() {
        let r = f.rules[from];
        assert forall|j: int| 0 <= j < r.clauses.len() implies clause_holds(#[trigger] r.clauses[j], ctx1, order, f.name)
            == clause_holds(r.clauses[j], ctx2, order, f.name) by {
            assert forall|k: int| 0 <= k < r.clauses[j].len() implies condition_holds(#[trigger] r.clauses[j][k], ctx1, order, f.name)
                == condition_holds(r.clauses[j][k], ctx2, order, f.name) by {
                lemma_rules_keys_contain(f.rules, from, j, k);
            }
        }
        assert(rule_holds(r, ctx1, order, f.name) == rule_holds(r, ctx2, order, f.name));
        lemma_first_match_same(f, ctx1, ctx2, order, from + 1);
    }
}

/// A flag's evaluation reads only the context keys that its rules name: two
/// contexts that agree on each of them pick the same rule, with the same
/// outcome.
pub proof fn law_evaluation_reads_named_keys(
    f: FlagView,
    ctx1: Seq<(Seq<char>, Seq<char>)>,
    ctx2: Seq<(Seq<char>, Seq<char>)>,
    order: Seq<(Seq<char>, u64)>,
)
    requires
        forall|k: Seq<char>| known_keys(f).contains(k) ==> lookup(ctx1, k) == lookup(ctx2, k),
    ensures
        first_match(f.rules, ctx1, order, f.name, 0) == first_match(f.rules, ctx2, order, f.name, 0),
        outcome(f, ctx1, order) == outcome(f, ctx2, order),
{
    lemma_first_match_same(f, ctx1, ctx2, order, 0);
}

} // verus!
