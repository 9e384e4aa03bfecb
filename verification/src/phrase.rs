//! Keyword-triggered canned replies.
//!
//! A rule carries a set of case-insensitive trigger tokens and one reply. A
//! token triggers only when it stands in the message as a whole
//! whitespace-delimited fragment, never as a substring of a longer fragment.
//! Rules are scanned in declaration order and the first match wins.

use crate::text::{chars_vec, eq_ci, is_ws, is_ws_char, lower_code, lower_code_char};
use vstd::prelude::*;

verus! {

/// `t` occupies positions `[i, i + t.len())` of `s` as a whole
/// whitespace-delimited fragment, equal to `t` up to ASCII case.
pub open spec fn token_at(s: Seq<char>, t: Seq<char>, i: int) -> bool {
    &&& 0 <= i
    &&& i + t.len() <= s.len()
    &&& t.len() > 0
    &&& (i == 0 || is_ws(s[i - 1]))
    &&& (i + t.len() == s.len() || is_ws(s[i + t.len()]))
    &&& (forall|k: int| i <= k < i + t.len() ==> !is_ws(s[k]))
    &&& eq_ci(s.subrange(i, i + t.len()), t)
}

/// `t` stands somewhere in `s` as a whole whitespace-delimited fragment.
pub open spec fn has_token(s: Seq<char>, t: Seq<char>) -> bool {
    exists|i: int| token_at(s, t, i)
}

/// Whether `tok` stands at position `i` of `text` as a whole fragment.
fn token_at_exec(text: &Vec<char>, tok: &Vec<char>, i: usize) -> (b: bool)
    requires
        i <= text@.len(),
    ensures
        b == token_at(text@, tok@, i as int),
{
    let m = tok.len();
    let n = text.len();
    if m == 0 {
        return false;
    }
    if n - i < m {
        return false;
    }
    if i > 0 && !is_ws_char(text[i - 1]) {
        return false;
    }
    if i + m < n && !is_ws_char(text[i + m]) {
        return false;
    }
    let mut k: usize = 0;
    while k < m
        invariant
            k <= m,
            m == tok@.len(),
            n == text@.len(),
            i + m <= n,
            m > 0,
            i == 0 || is_ws(text@[i - 1]),
            i + m == n || is_ws(text@[i + m]),
            forall|t: int| i <= t < i + k ==> !is_ws(text@[t]),
            forall|t: int| i <= t < i + k ==> lower_code(text@[t]) == lower_code(tok@[t - i]),
        decreases m - k,
    {
        let c = text[i + k];
        assert(c == text@[i + k]);
        if is_ws_char(c) {
            assert(!token_at(text@, tok@, i as int));
            return false;
        }
        if lower_code_char(c) != lower_code_char(tok[k]) {
            assert(text@.subrange(i as int, i + m)[k as int] == text@[i + k]);
            assert(!eq_ci(text@.subrange(i as int, i + m), tok@));
            return false;
        }
        k += 1;
    }
    assert forall|j: int| 0 <= j < m implies lower_code(
        text@.subrange(i as int, i + m)[j],
    ) == lower_code(tok@[j]) by {
        assert(text@.subrange(i as int, i + m)[j] == text@[i + j]);
        assert(i <= i + j < i + m);
    }
    assert(eq_ci(text@.subrange(i as int, i + m), tok@));
    assert(token_at(text@, tok@, i as int));
    true
}

/// Whether `tok` stands anywhere in `text` as a whole fragment.
fn has_token_exec(text: &Vec<char>, tok: &Vec<char>) -> (b: bool)
    ensures
        b == has_token(text@, tok@),
{
    let n = text.len();
    let mut i: usize = 0;
    while i < n
        invariant
            i <= n,
            n == text@.len(),
            forall|j: int| 0 <= j < i ==> !token_at(text@, tok@, j),
        decreases n - i,
    {
        if token_at_exec(text, tok, i) {
            return true;
        }
        i += 1;
    }
    assert forall|j: int| !token_at(text@, tok@, j) by {
        if 0 <= j < n {
        } else {
            assert(!token_at(text@, tok@, j));
        }
    }
    false
}

/// One phrase rule: trigger tokens and the reply they earn.
pub struct Phrase {
    pub needle: Vec<String>,
    pub reply: String,
}

impl Phrase {
    /// Whether some trigger token of this rule stands in `text` as a whole
    /// fragment.
    pub open spec fn spec_matches(self, text: Seq<char>) -> bool {
        exists|j: int| 0 <= j < self.needle.len() && has_token(text, self.needle[j]@)
    }

    /// Whether this rule matches the message `text`.
    pub fn matches(&self, text: &Vec<char>) -> (b: bool)
        ensures
            b == self.spec_matches(text@),
    {
        let mut j: usize = 0;
        let m = self.needle.len();
        while j < m
            invariant
                j <= m,
                m == self.needle.len(),
                forall|j2: int| 0 <= j2 < j ==> !has_token(text@, self.needle[j2]@),
            decreases m - j,
        {
            let tok = chars_vec(self.needle[j].as_str());
            if has_token_exec(text, &tok) {
                return true;
            }
            j += 1;
        }
        false
    }

    /// Match `text` against the built-in rule table: the reply of the first
    /// rule with a trigger standing in `text` as a whole fragment.
    pub fn get_reply(text: &str) -> (r: Option<String>)
        ensures
            opt_view(r) == default_reply(text@),
    {
        let rules = phrases();
        let r = match_rules(&rules, text);
        proof {
            lemma_default_table(rules@, text@);
        }
        r
    }
}

/// The reply of the first rule of `rules` that matches `text`, in order.
pub open spec fn first_match(rules: Seq<Phrase>, text: Seq<char>) -> Option<Seq<char>>
    decreases rules.len(),
{
    if rules.len() == 0 {
        Option::None
    } else if rules[0].spec_matches(text) {
        Option::Some(rules[0].reply@)
    } else {
        first_match(rules.drop_first(), text)
    }
}

/// The view of an optional reply.
pub open spec fn opt_view(r: Option<String>) -> Option<Seq<char>> {
    match r {
        Option::Some(s) => Option::Some(s@),
        Option::None => Option::None,
    }
}

/// Scan `rules` in order and return the reply of the first rule that matches
/// `text`.
pub fn match_rules(rules: &Vec<Phrase>, text: &str) -> (r: Option<String>)
    ensures
        opt_view(r) == first_match(rules@, text@),
{
    let chars = chars_vec(text);
    let n = rules.len();
    let mut k: usize = 0;
    assert(rules@.skip(0) =~= rules@);
    while k < n
        invariant
            k <= n,
            n == rules@.len(),
            chars@ == text@,
            first_match(rules@, text@) == first_match(rules@.skip(k as int), text@),
        decreases n - k,
    {
        let ph: &Phrase = &rules[k];
        let ghost tail = rules@.skip(k as int);
        assert(tail[0] == rules@[k as int]);
        if ph.matches(&chars) {
            let reply = ph.reply.clone();
            return Option::Some(reply);
        }
        assert(tail.drop_first() =~= rules@.skip(k + 1));
        k += 1;
    }
    assert(rules@.skip(n as int) =~= Seq::<Phrase>::empty());
    Option::None
}

/// What the built-in rule table says of `text`: the first matching rule's
/// reply.
pub open spec fn default_reply(text: Seq<char>) -> Option<Seq<char>> {
    if has_token(text, "6yb"@) || has_token(text, "ok"@) || has_token(text, "طيب"@) {
        Option::Some("6yb"@)
    } else if has_token(text, "yep"@) || has_token(text, "yebb"@) {
        Option::Some("YEBB"@)
    } else {
        Option::None
    }
}

/// The shape of the built-in rule table.
pub open spec fn rules_are_default(rules: Seq<Phrase>) -> bool {
    &&& rules.len() == 2
    &&& rules[0].needle.deep_view() =~= seq!["6yb"@, "ok"@, "طيب"@]
    &&& rules[0].reply@ == "6yb"@
    &&& rules[1].needle.deep_view() =~= seq!["yep"@, "yebb"@]
    &&& rules[1].reply@ == "YEBB"@
}

/// The built-in rule table.
pub fn phrases() -> (r: Vec<Phrase>)
    ensures
        rules_are_default(r@),
{
    let mut needle1: Vec<String> = Vec::new();
    needle1.push("6yb".to_owned());
    needle1.push("ok".to_owned());
    needle1.push("طيب".to_owned());
    let p1 = Phrase { needle: needle1, reply: "6yb".to_owned() };
    let mut needle2: Vec<String> = Vec::new();
    needle2.push("yep".to_owned());
    needle2.push("yebb".to_owned());
    let p2 = Phrase { needle: needle2, reply: "YEBB".to_owned() };
    let mut rules: Vec<Phrase> = Vec::new();
    rules.push(p1);
    rules.push(p2);
    assert(rules@[0].needle.deep_view() =~= seq!["6yb"@, "ok"@, "طيب"@]);
    assert(rules@[1].needle.deep_view() =~= seq!["yep"@, "yebb"@]);
    rules
}

/// On the built-in table, scanning in order gives exactly `default_reply`.
pub proof fn lemma_default_table(rules: Seq<Phrase>, text: Seq<char>)
    requires
        rules_are_default(rules),
    ensures
        first_match(rules, text) == default_reply(text),
{
    let d0 = rules[0].needle.deep_view();
    let d1 = rules[1].needle.deep_view();
    assert(rules[0].needle[0]@ == d0[0] && rules[0].needle[1]@ == d0[1] && rules[0].needle[2]@
        == d0[2]);
    assert(rules[1].needle[0]@ == d1[0] && rules[1].needle[1]@ == d1[1]);
    assert(rules[0].spec_matches(text) <==> (has_token(text, "6yb"@) || has_token(text, "ok"@)
        || has_token(text, "طيب"@))) by {
        if has_token(text, "6yb"@) {
            assert(rules[0].needle[0]@ == "6yb"@);
        }
        if has_token(text, "ok"@) {
            assert(rules[0].needle[1]@ == "ok"@);
        }
        if has_token(text, "طيب"@) {
            assert(rules[0].needle[2]@ == "طيب"@);
        }
    }
    assert(rules[1].spec_matches(text) <==> (has_token(text, "yep"@) || has_token(
        text,
        "yebb"@,
    ))) by {
        if has_token(text, "yep"@) {
            assert(rules[1].needle[0]@ == "yep"@);
        }
        if has_token(text, "yebb"@) {
            assert(rules[1].needle[1]@ == "yebb"@);
        }
    }
    assert(rules.drop_first()[0] == rules[1]);
    assert(rules.drop_first().drop_first() =~= Seq::<Phrase>::empty());
    if rules[0].spec_matches(text) {
        assert(first_match(rules, text) == Option::Some(rules[0].reply@));
    } else {
        assert(first_match(rules, text) == first_match(rules.drop_first(), text));
        if rules[1].spec_matches(text) {
            assert(first_match(rules.drop_first(), text) == Option::Some(rules[1].reply@));
        } else {
            assert(first_match(rules.drop_first(), text) == first_match(
                rules.drop_first().drop_first(),
                text,
            ));
            assert(first_match(rules.drop_first().drop_first(), text)
                == Option::<Seq<char>>::None);
        }
    }
}

/// A trigger of some rule standing whole in the text guarantees a reply, and
/// the reply is that of the earliest matching rule.
pub proof fn lemma_trigger_yields_reply(rules: Seq<Phrase>, text: Seq<char>, k: int, j: int)
    requires
        0 <= k < rules.len(),
        0 <= j < rules[k].needle.len(),
        has_token(text, rules[k].needle[j]@),
    ensures
        exists|w: int|
            0 <= w <= k && rules[w].spec_matches(text) && first_match(rules, text)
                == Option::Some(rules[w].reply@) && (forall|v: int|
                0 <= v < w ==> !rules[v].spec_matches(text)),
    decreases rules.len(),
{
    assert(rules[k].spec_matches(text));
    if rules[0].spec_matches(text) {
        assert(0 <= 0 <= k && rules[0].spec_matches(text) && first_match(rules, text)
            == Option::Some(rules[0].reply@) && (forall|v: int|
            0 <= v < 0 ==> !rules[v].spec_matches(text)));
    } else {
        assert(k >= 1);
        assert(rules.drop_first()[k - 1] == rules[k]);
        lemma_trigger_yields_reply(rules.drop_first(), text, k - 1, j);
        let w0 = choose|w0: int|
            0 <= w0 <= k - 1 && rules.drop_first()[w0].spec_matches(text) && first_match(
                rules.drop_first(),
                text,
            ) == Option::Some(rules.drop_first()[w0].reply@) && (forall|v: int|
                0 <= v < w0 ==> !rules.drop_first()[v].spec_matches(text));
        assert(rules.drop_first()[w0] == rules[w0 + 1]);
        assert forall|v: int| 0 <= v < w0 + 1 implies !rules[v].spec_matches(text) by {
            if v >= 1 {
                assert(rules.drop_first()[v - 1] == rules[v]);
            }
        }
        assert(0 <= w0 + 1 <= k && rules[w0 + 1].spec_matches(text) && first_match(rules, text)
            == Option::Some(rules[w0 + 1].reply@) && (forall|v: int|
            0 <= v < w0 + 1 ==> !rules[v].spec_matches(text)));
    }
}

/// A text in which no rule's trigger stands as a whole fragment earns no
/// reply.
pub proof fn lemma_no_trigger_no_reply(rules: Seq<Phrase>, text: Seq<char>)
    requires
        forall|k: int| 0 <= k < rules.len() ==> !rules[k].spec_matches(text),
    ensures
        first_match(rules, text) == Option::<Seq<char>>::None,
    decreases rules.len(),
{
    if rules.len() > 0 {
        assert forall|k: int|
            0 <= k < rules.drop_first().len() implies !rules.drop_first()[k].spec_matches(
            text,
        ) by {
            assert(rules.drop_first()[k] == rules[k + 1]);
        }
        lemma_no_trigger_no_reply(rules.drop_first(), text);
    }
}

/// When a text matches two rules, the rule declared earlier wins: the first
/// matching rule's reply is the one returned.
pub proof fn lemma_earlier_rule_wins(rules: Seq<Phrase>, text: Seq<char>, k: int)
    requires
        0 <= k < rules.len(),
        rules[k].spec_matches(text),
        forall|j: int| 0 <= j < k ==> !rules[j].spec_matches(text),
    ensures
        first_match(rules, text) == Option::Some(rules[k].reply@),
    decreases k,
{
    if k > 0 {
        assert(rules.drop_first()[k - 1] == rules[k]);
        assert forall|j: int| 0 <= j < k - 1 implies !rules.drop_first()[j].spec_matches(text) by {
            assert(rules.drop_first()[j] == rules[j + 1]);
        }
        lemma_earlier_rule_wins(rules.drop_first(), text, k - 1);
    }
}

} // verus!
