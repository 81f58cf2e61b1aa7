//! Log levels, and which messages are let through.
use vstd::prelude::*;
use vstd::slice::slice_subrange;
use crate::log::names;
use crate::log::names::strip_crate;
use crate::text;

verus! {

/// How severe a message is, the most severe first.
#[derive(Clone, Copy, PartialEq, Eq, Structural, Debug)]
pub enum LogLevel {
    Error,
    Warn,
    Info,
    Debug,
    Trace,
}

/// The number of the level.
pub open spec fn rank(level: LogLevel) -> int {
    match level {
        LogLevel::Error => 0,
        LogLevel::Warn => 1,
        LogLevel::Info => 2,
        LogLevel::Debug => 3,
        LogLevel::Trace => 4,
    }
}

impl LogLevel {
    /// The number of the level.
    pub fn as_u8(&self) -> (r: u8)
        ensures
            r == rank(*self),
    {
        match self {
            LogLevel::Error => 0,
            LogLevel::Warn => 1,
            LogLevel::Info => 2,
            LogLevel::Debug => 3,
            LogLevel::Trace => 4,
        }
    }
}

/// The level with the number; the last one for all larger numbers.
pub fn level_from_u8(v: u8) -> (r: LogLevel)
    ensures
        rank(r) == (if v < 4 {
            v as int
        } else {
            4
        }),
{
    match v {
        0 => LogLevel::Error,
        1 => LogLevel::Warn,
        2 => LogLevel::Info,
        3 => LogLevel::Debug,
        _ => LogLevel::Trace,
    }
}

/// The level of the modules whose path starts with the prefix.
#[derive(Clone, Copy)]
pub struct ModuleRule {
    pub prefix: &'static str,
    pub level: LogLevel,
}

/// The rule is for the module: the prefix is its path or is followed by two colons.
pub open spec fn applies(rule: ModuleRule, module: Seq<u8>) -> bool {
    let p = text::utf8(rule.prefix);
    ||| module == p
    ||| p.len() + 2 <= module.len() && module.subrange(0, p.len() as int) == p && names::colons(
        module,
        p.len() as int,
    )
}

/// Position of the rule for the module among the first `n`: the one with the longest prefix, the
/// first of them if there are several. `-1` if there is none.
pub open spec fn best_rule(rules: Seq<ModuleRule>, module: Seq<u8>, n: int) -> int
    decreases n,
{
    if n <= 0 {
        -1
    } else {
        let best = best_rule(rules, module, n - 1);
        let r = rules[n - 1];
        if applies(r, module) && (best < 0 || text::utf8(r.prefix).len() > text::utf8(
            rules[best].prefix,
        ).len()) {
            n - 1
        } else {
            best
        }
    }
}

/// The level up to which messages of the module are let through.
pub open spec fn effective(level: LogLevel, rules: Option<Seq<ModuleRule>>, module: Seq<u8>) -> LogLevel {
    match rules {
        Some(rs) => {
            let best = best_rule(rs, names::without_crate(module), rs.len() as int);
            if best >= 0 {
                rs[best].level
            } else {
                level
            }
        },
        None => level,
    }
}

/// Whether the rule is for the module.
fn rule_applies(rule: &ModuleRule, module: &[u8]) -> (r: bool)
    ensures
        r == applies(*rule, module@),
{
    let p: &[u8] = rule.prefix.as_bytes();
    if text::bytes_eq(module, p) {
        return true;
    }
    let n: usize = p.len();
    if module.len() < 2 || n > module.len() - 2 {
        return false;
    }
    text::bytes_eq(slice_subrange(module, 0, n), p) && module[n] == 58 && module[n + 1] == 58
}

/// Which messages are let through: a level for all modules, rules for some, and a level for the
/// console.
pub struct Filter {
    level: LogLevel,
    console: LogLevel,
    rules: Option<Vec<ModuleRule>>,
}

impl Filter {
    /// The level for modules without a rule.
    pub closed spec fn level(&self) -> LogLevel {
        self.level
    }

    /// The level for the console.
    pub closed spec fn console(&self) -> LogLevel {
        self.console
    }

    /// The rules, once they are set.
    pub closed spec fn rules(&self) -> Option<Seq<ModuleRule>> {
        match self.rules {
            Some(r) => Some(r@),
            None => None,
        }
    }

    /// Lets messages up to `Info` through.
    pub fn new() -> (r: Filter)
        ensures
            r.level() == LogLevel::Info,
            r.console() == LogLevel::Info,
            r.rules() is None,
    {
        Filter { level: LogLevel::Info, console: LogLevel::Info, rules: None }
    }

    /// Sets the level for modules without a rule.
    pub fn set_max_level(&mut self, level: LogLevel)
        ensures
            final(self).level() == level,
            final(self).console() == old(self).console(),
            final(self).rules() == old(self).rules(),
    {
        self.level = level;
    }

    /// The level for modules without a rule.
    pub fn max_level(&self) -> (r: LogLevel)
        ensures
            r == self.level(),
    {
        self.level
    }

    /// Sets the level for the console.
    pub fn set_console_level(&mut self, level: LogLevel)
        ensures
            final(self).console() == level,
            final(self).level() == old(self).level(),
            final(self).rules() == old(self).rules(),
    {
        self.console = level;
    }

    /// The level for the console.
    pub fn console_level(&self) -> (r: LogLevel)
        ensures
            r == self.console(),
    {
        self.console
    }

    /// Sets the rules. Only the first call counts.
    pub fn set_module_rules(&mut self, rules: Vec<ModuleRule>)
        ensures
            final(self).rules() == (match old(self).rules() {
                Some(r) => Some(r),
                None => Some(rules@),
            }),
            final(self).level() == old(self).level(),
            final(self).console() == old(self).console(),
    {
        if self.rules.is_none() {
            self.rules = Some(rules);
        }
    }

    /// The level up to which messages of the module are let through.
    pub fn effective_level(&self, module: &str) -> (r: LogLevel)
        ensures
            r == effective(self.level(), self.rules(), text::utf8(module)),
    {
        let rules: &Vec<ModuleRule> = match &self.rules {
            Some(r) => r,
            None => {
                return self.level;
            },
        };
        let m: &[u8] = strip_crate(module.as_bytes());
        let mut best: Option<usize> = None;
        let mut i: usize = 0;
        while i < rules.len()
            invariant
                i <= rules@.len(),
                match best {
                    Some(b) => b < i && b == best_rule(rules@, m@, i as int),
                    None => best_rule(rules@, m@, i as int) == -1,
                },
            decreases rules@.len() - i,
        {
            if rule_applies(&rules[i], m) {
                let longer: bool = match best {
                    Some(b) => rules[i].prefix.as_bytes().len() > rules[b].prefix.as_bytes().len(),
                    None => true,
                };
                if longer {
                    best = Some(i);
                }
            }
            i += 1;
        }
        match best {
            Some(b) => rules[b].level,
            None => self.level,
        }
    }

    /// Whether a message of the level from the module is let through.
    pub fn lets_through(&self, level: LogLevel, module: &str) -> (r: bool)
        ensures
            r == (rank(level) <= rank(effective(self.level(), self.rules(), text::utf8(module)))),
    {
        level.as_u8() <= self.effective_level(module).as_u8()
    }

    /// Whether a message of the level is shown on the console.
    pub fn console_shows(&self, level: LogLevel) -> (r: bool)
        ensures
            r == (rank(level) <= rank(self.console())),
    {
        level.as_u8() <= self.console.as_u8()
    }
}

/// The rule with the longest prefix counts: no rule for the module has a longer one, and among the
/// longest the first counts.
pub proof fn law_longest_prefix(rules: Seq<ModuleRule>, module: Seq<u8>, n: int, j: int)
    requires
        0 <= j < n <= rules.len(),
        applies(rules[j], module),
    ensures
        ({
            let b = best_rule(rules, module, n);
            &&& 0 <= b < n
            &&& applies(rules[b], module)
            &&& text::utf8(rules[j].prefix).len() <= text::utf8(rules[b].prefix).len()
            &&& text::utf8(rules[j].prefix).len() == text::utf8(rules[b].prefix).len() ==> b <= j
        }),
    decreases n,
{
    lemma_best_rule(rules, module, n - 1);
    if j < n - 1 {
        law_longest_prefix(rules, module, n - 1, j);
    }
}

/// The best rule is one of the rules and is for the module.
proof fn lemma_best_rule(rules: Seq<ModuleRule>, module: Seq<u8>, n: int)
    requires
        0 <= n <= rules.len(),
    ensures
        -1 <= best_rule(rules, module, n) < n || n == 0 && best_rule(rules, module, n) == -1,
        best_rule(rules, module, n) >= 0 ==> applies(rules[best_rule(rules, module, n)], module),
    decreases n,
{
    if n > 0 {
        lemma_best_rule(rules, module, n - 1);
    }
}

/// A rule is for the module that its prefix names and for the modules inside that; a module whose name
/// only starts with the same letters is another one.
pub proof fn law_rule_scope(rule: ModuleRule, rest: Seq<u8>)
    ensures
        applies(rule, text::utf8(rule.prefix)),
        applies(rule, text::utf8(rule.prefix) + seq![58u8, 58u8] + rest),
        rest.len() > 0 && rest[0] != 58 ==> !applies(rule, text::utf8(rule.prefix) + rest),
{
    let p = text::utf8(rule.prefix);
    let n = p.len() as int;
    let inside = p + seq![58u8, 58u8] + rest;
    assert(inside.subrange(0, n) =~= p);
    assert(names::colons(inside, n));
    let beside = p + rest;
    if rest.len() > 0 {
        assert(beside.len() != p.len());
        assert(beside[n] == rest[0]);
    }
}

/// The level for a module is that of the rule with the longest prefix among those for the path behind
/// the crate name, and the general level where there is none.
pub proof fn law_effective_level(
    level: LogLevel,
    rules: Seq<ModuleRule>,
    name: Seq<u8>,
    path: Seq<u8>,
    j: int,
)
    requires
        names::no_colon(name),
    ensures
        ({
            let module = name + seq![58u8, 58u8] + path;
            &&& effective(level, None, module) == level
            &&& (forall|i: int| 0 <= i < rules.len() ==> !applies(#[trigger] rules[i], path))
                ==> effective(level, Some(rules), module) == level
            &&& 0 <= j < rules.len() && applies(rules[j], path) && (forall|i: int|
                0 <= i < rules.len() && i != j && applies(#[trigger] rules[i], path) ==> text::utf8(
                    rules[i].prefix,
                ).len() < text::utf8(rules[j].prefix).len()) ==> effective(
                level,
                Some(rules),
                module,
            ) == rules[j].level
        }),
{
    let n = rules.len() as int;
    names::law_without_crate(name, path);
    lemma_best_rule(rules, path, n);
    if 0 <= j < n && applies(rules[j], path) {
        law_longest_prefix(rules, path, n, j);
    }
}

/// The levels are ordered: errors are the most severe, traces the least.
pub proof fn law_level_order()
    ensures
        rank(LogLevel::Error) < rank(LogLevel::Warn) < rank(LogLevel::Info) < rank(LogLevel::Debug)
            < rank(LogLevel::Trace),
        rank(LogLevel::Error) == 0,
        rank(LogLevel::Trace) == 4,
{
}

} // verus!
