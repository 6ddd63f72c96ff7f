//! The Nix expressions that the evaluator is given.

use vstd::prelude::*;
use vstd::string::*;

use crate::model::Profile;
use crate::text;

verus! {

/// The nixpkgs configuration of a profile.
pub open spec fn config_text(p: Profile) -> Seq<char> {
    "{ allowUnfree = true; allowAliases = false;"@ + (if p.broken {
        " allowBroken = true;"@
    } else {
        Seq::empty()
    }) + (if p.unsupported {
        " allowUnsupportedSystem = true;"@
    } else {
        Seq::empty()
    }) + (if p.insecure {
        " allowInsecurePredicate = _: true;"@
    } else {
        Seq::empty()
    }) + " }"@
}

/// The nixpkgs configuration of a profile: unfree packages always allowed,
/// aliases never, the rest as the profile says.
pub fn profile_config(profile: Profile) -> (r: String)
    ensures
        r@ == config_text(profile),
{
    let mut r = "{ allowUnfree = true; allowAliases = false;".to_owned();
    let ghost head = r@;
    if profile.broken {
        r.append(" allowBroken = true;");
    }
    if profile.unsupported {
        r.append(" allowUnsupportedSystem = true;");
    }
    if profile.insecure {
        r.append(" allowInsecurePredicate = _: true;");
    }
    r.append(" }");
    assert(r@ =~= config_text(profile));
    r
}

// --- string literals ---------------------------------------------------------

/// A text as it stands inside a Nix string literal: a backslash goes before
/// every backslash, every double quote, and every `${`.
pub open spec fn escaped(s: Seq<char>) -> Seq<char>
    decreases s.len(),
{
    if s.len() == 0 {
        Seq::empty()
    } else if s[0] == '\\' || s[0] == '"' || (s[0] == '$' && s.len() > 1 && s[1] == '{') {
        seq!['\\', s[0]] + escaped(s.skip(1))
    } else {
        seq![s[0]] + escaped(s.skip(1))
    }
}

/// A text as it stands inside a Nix string literal.
pub fn nix_escape(s: &str) -> (r: String)
    ensures
        r@ == escaped(s@),
{
    let v = text::chars_of(s);
    let mut r = String::new();
    let mut i: usize = 0;
    assert(v@.skip(0) =~= v@);
    assert(r@ + escaped(v@.skip(0)) =~= escaped(v@));
    while i < v.len()
        invariant
            i <= v@.len(),
            r@ + escaped(v@.skip(i as int)) == escaped(v@),
        decreases v@.len() - i,
    {
        let c = v[i];
        let opens = c == '$' && v.len() - i > 1 && v[i + 1] == '{';
        let ghost was = r@;
        let ghost rest = v@.skip(i as int);
        assert(rest.skip(1) =~= v@.skip(i + 1));
        if c == '\\' || c == '"' || opens {
            r.push('\\');
            r.push(c);
            assert(r@ + escaped(v@.skip(i + 1)) =~= was + (seq!['\\', c] + escaped(
                v@.skip(i + 1),
            )));
        } else {
            r.push(c);
            assert(r@ + escaped(v@.skip(i + 1)) =~= was + (seq![c] + escaped(v@.skip(i + 1))));
        }
        i = i + 1;
    }
    assert(r@ + escaped(v@.skip(i as int)) =~= r@);
    r
}

/// What Nix reads between the quotes of a string literal: a backslash takes the
/// next character as it is, but for `\n`, `\r` and `\t`. Nothing, where the
/// text ends the literal early, opens an interpolation, or ends in a backslash.
pub open spec fn literal_value(t: Seq<char>) -> Option<Seq<char>>
    decreases t.len(),
{
    if t.len() == 0 {
        Some(Seq::empty())
    } else if t[0] == '\\' {
        if t.len() == 1 {
            None
        } else {
            let c = if t[1] == 'n' {
                '\n'
            } else if t[1] == 'r' {
                '\r'
            } else if t[1] == 't' {
                '\t'
            } else {
                t[1]
            };
            match literal_value(t.skip(2)) {
                Some(v) => Some(seq![c] + v),
                None => None,
            }
        }
    } else if t[0] == '"' || (t[0] == '$' && t.len() > 1 && t[1] == '{') {
        None
    } else {
        match literal_value(t.skip(1)) {
            Some(v) => Some(seq![t[0]] + v),
            None => None,
        }
    }
}

/// Whatever the text, Nix reads it back from its escaped form: it can neither
/// end the literal nor open an interpolation.
pub proof fn law_escaped_text_reads_back(s: Seq<char>)
    ensures
        literal_value(escaped(s)) == Some(s),
    decreases s.len(),
{
    if s.len() == 0 {
        assert(escaped(s) =~= Seq::<char>::empty());
        assert(s =~= Seq::<char>::empty());
    } else {
        let rest = s.skip(1);
        law_escaped_text_reads_back(rest);
        assert(seq![s[0]] + rest =~= s);
        let e = escaped(s);
        if s[0] == '\\' || s[0] == '"' || (s[0] == '$' && s.len() > 1 && s[1] == '{') {
            assert(e[0] == '\\' && e[1] == s[0]);
            assert(e.skip(2) =~= escaped(rest));
        } else {
            assert(e[0] == s[0]);
            assert(e.skip(1) =~= escaped(rest));
            if s[0] == '$' && e.len() > 1 {
                assert(e[1] == escaped(rest)[0]);
                assert(rest.len() > 0);
                assert(rest[0] == s[1]);
            }
        }
    }
}

/// The text with every backslash doubled, then a backslash before every double
/// quote, then one before every `${`.
pub open spec fn replaced_in_turn(s: Seq<char>) -> Seq<char> {
    text::replaced(
        text::replaced(text::replaced(s, seq!['\\'], seq!['\\', '\\']), seq!['"'], seq!['\\', '"']),
        seq!['$', '{'],
        seq!['\\', '$', '{'],
    )
}

proof fn lemma_replace_one(s: Seq<char>, c: char, to: Seq<char>)
    requires
        s.len() > 0,
    ensures
        text::replaced(s, seq![c], to) == (if s[0] == c {
            to
        } else {
            seq![s[0]]
        }) + text::replaced(s.skip(1), seq![c], to),
{
    assert(s.take(1) =~= seq![s[0]]);
    assert(text::begins(s, seq![c]) == (s[0] == c)) by {
        assert(seq![s[0]][0] == s[0]);
        assert(seq![c][0] == c);
    }
}

proof fn lemma_replace_pass(c: char, x: Seq<char>)
    requires
        c != '$' || x.len() == 0 || x[0] != '{',
    ensures
        text::replaced(seq![c] + x, seq!['$', '{'], seq!['\\', '$', '{']) == seq![c]
            + text::replaced(x, seq!['$', '{'], seq!['\\', '$', '{']),
{
    let s = seq![c] + x;
    let p = seq!['$', '{'];
    assert(s.skip(1) =~= x);
    assert(!text::begins(s, p)) by {
        if text::begins(s, p) {
            assert(s.take(2)[0] == p[0]);
            assert(s.take(2)[1] == p[1]);
        }
    }
}

/// Escaping is to double the backslashes first, then to mark the quotes, then
/// the interpolations: no step disturbs what another did.
pub proof fn law_escaping_is_replacing_in_turn(s: Seq<char>)
    ensures
        replaced_in_turn(s) == escaped(s),
    decreases s.len(),
{
    let bb = seq!['\\', '\\'];
    let bq = seq!['\\', '"'];
    let open = seq!['$', '{'];
    let bopen = seq!['\\', '$', '{'];
    if s.len() == 0 {
        assert(s =~= Seq::<char>::empty());
        assert(escaped(s) =~= s);
    } else {
        let c = s[0];
        let rest = s.skip(1);
        law_escaping_is_replacing_in_turn(rest);
        let r1 = text::replaced(rest, seq!['\\'], bb);
        let r2 = text::replaced(r1, seq!['"'], bq);
        lemma_replace_one(s, '\\', bb);
        let s1 = text::replaced(s, seq!['\\'], bb);
        let s2 = text::replaced(s1, seq!['"'], bq);
        if c == '\\' {
            assert(s1 =~= bb + r1);
            lemma_replace_one(s1, '"', bq);
            assert(s1.skip(1) =~= seq!['\\'] + r1);
            lemma_replace_one(seq!['\\'] + r1, '"', bq);
            assert((seq!['\\'] + r1).skip(1) =~= r1);
            assert(s2 =~= seq!['\\'] + (seq!['\\'] + r2));
            lemma_replace_pass('\\', r2);
            lemma_replace_pass('\\', seq!['\\'] + r2);
            assert(escaped(s) =~= seq!['\\'] + (seq!['\\'] + escaped(rest)));
        } else if c == '"' {
            assert(s1 =~= seq![c] + r1);
            lemma_replace_one(s1, '"', bq);
            assert(s1.skip(1) =~= r1);
            assert(s2 =~= seq!['\\'] + (seq!['"'] + r2));
            lemma_replace_pass('"', r2);
            lemma_replace_pass('\\', seq!['"'] + r2);
            assert(escaped(s) =~= seq!['\\'] + (seq!['"'] + escaped(rest)));
        } else {
            assert(s1 =~= seq![c] + r1);
            lemma_replace_one(s1, '"', bq);
            assert(s1.skip(1) =~= r1);
            assert(s2 =~= seq![c] + r2);
            // The first character behind it, through both steps.
            if rest.len() > 0 {
                lemma_replace_one(rest, '\\', bb);
                assert(r1[0] == rest[0]);
                lemma_replace_one(r1, '"', bq);
                assert(r2[0] == (if rest[0] == '"' {
                    '\\'
                } else {
                    rest[0]
                }));
            }
            if c == '$' && rest.len() > 0 && rest[0] == '{' {
                let rest2 = rest.skip(1);
                let q1 = text::replaced(rest2, seq!['\\'], bb);
                let q2 = text::replaced(q1, seq!['"'], bq);
                assert(r1 =~= seq!['{'] + q1);
                assert(r1.skip(1) =~= q1);
                assert(r2 =~= seq!['{'] + q2);
                assert(s2.take(2) =~= open);
                assert(s2.skip(2) =~= q2);
                lemma_replace_pass('{', q2);
                assert(text::replaced(s2, open, bopen) =~= seq!['\\', c] + text::replaced(
                    r2,
                    open,
                    bopen,
                ));
                assert(s[1] == '{');
            } else {
                lemma_replace_pass(c, r2);
                assert(!(s.len() > 1 && c == '$' && s[1] == '{')) by {
                    if s.len() > 1 {
                        assert(rest[0] == s[1]);
                    }
                }
            }
        }
    }
}

/// Texts as the body of a Nix list: each a literal with a space behind it.
pub open spec fn list_body(items: Seq<Seq<char>>) -> Seq<char>
    decreases items.len(),
{
    if items.len() == 0 {
        Seq::empty()
    } else {
        list_body(items.drop_last()) + "\""@ + escaped(items.last()) + "\" "@
    }
}

/// Strings as the body of a Nix list.
pub fn nix_string_list(items: &[String]) -> (r: String)
    ensures
        r@ == list_body(text::texts(items@)),
{
    let ghost all = text::texts(items@);
    let mut r = String::new();
    let mut i: usize = 0;
    assert(r@ =~= list_body(all.take(0)));
    while i < items.len()
        invariant
            i <= items@.len(),
            all == text::texts(items@),
            r@ == list_body(all.take(i as int)),
        decreases items@.len() - i,
    {
        proof {
            assert(all.take(i + 1).drop_last() =~= all.take(i as int));
            assert(all.take(i + 1).last() == items@[i as int]@);
        }
        r.append("\"");
        let e = nix_escape(items[i].as_str());
        r.append(e.as_str());
        r.append("\" ");
        i = i + 1;
    }
    assert(all.take(i as int) =~= all);
    r
}

// --- expressions -------------------------------------------------------------

/// The import of the package set at a revision.
pub open spec fn import_text(
    repo: Seq<char>,
    rev: Seq<char>,
    system: Seq<char>,
    config: Seq<char>,
) -> Seq<char> {
    "import (builtins.fetchGit { url = \""@ + escaped(repo) + "\"; rev = \""@ + escaped(rev)
        + "\"; }) { system = \""@ + escaped(system) + "\"; config = "@ + config + "; }"@
}

/// The import of the whole package set at a revision, for a system, under a
/// configuration.
pub fn build_expr(repo: &str, rev: &str, system: &str, config: &str) -> (r: String)
    ensures
        r@ == import_text(repo@, rev@, system@, config@),
{
    let mut r = "import (builtins.fetchGit { url = \"".to_owned();
    let e = nix_escape(repo);
    r.append(e.as_str());
    r.append("\"; rev = \"");
    let e = nix_escape(rev);
    r.append(e.as_str());
    r.append("\"; }) { system = \"");
    let e = nix_escape(system);
    r.append(e.as_str());
    r.append("\"; config = ");
    r.append(config);
    r.append("; }");
    r
}

/// The names of the package set at a revision.
pub fn names_expr(repo: &str, rev: &str, system: &str, config: &str) -> (r: String)
    ensures
        r@ == "builtins.attrNames ("@ + import_text(repo@, rev@, system@, config@) + ")"@,
{
    let mut r = "builtins.attrNames (".to_owned();
    let e = build_expr(repo, rev, system, config);
    r.append(e.as_str());
    r.append(")");
    r
}

/// The part of the package set with the given names, each value left to be
/// forced on its own.
pub fn shard_expr(repo: &str, rev: &str, system: &str, names: &[String], config: &str) -> (r: String)
    ensures
        r@ == "let pkgs = "@ + import_text(repo@, rev@, system@, config@)
            + "; in builtins.listToAttrs (map (n: { name = n; value = pkgs.${n}; }) [ "@ + list_body(
            text::texts(names@),
        ) + "])"@,
{
    let mut r = "let pkgs = ".to_owned();
    let e = build_expr(repo, rev, system, config);
    r.append(e.as_str());
    r.append("; in builtins.listToAttrs (map (n: { name = n; value = pkgs.${n}; }) [ ");
    let list = nix_string_list(names);
    r.append(list.as_str());
    r.append("])");
    r
}

/// The part of the package set at the given attr paths, which may be nested.
pub fn select_expr(repo: &str, rev: &str, system: &str, paths: &[String], config: &str) -> (r: String)
    ensures
        r@ == "let pkgs = "@ + import_text(repo@, rev@, system@, config@)
            + "; lib = pkgs.lib; in builtins.listToAttrs (map (p: { name = p; value = lib.attrByPath (lib.splitString \".\" p) null pkgs; }) [ "@
            + list_body(text::texts(paths@)) + "])"@,
{
    let mut r = "let pkgs = ".to_owned();
    let e = build_expr(repo, rev, system, config);
    r.append(e.as_str());
    r.append(
        "; lib = pkgs.lib; in builtins.listToAttrs (map (p: { name = p; value = lib.attrByPath (lib.splitString \".\" p) null pkgs; }) [ ",
    );
    let list = nix_string_list(paths);
    r.append(list.as_str());
    r.append("])");
    r
}

/// The expression for the tests of packages, with `@PKGS@`, `@ATTRS@`,
/// `@ALLOW_UNSUP@` and `@ALLOW_INSEC@` in place of what depends on the run.
pub const TESTS_TEMPLATE: &'static str = r#"
let
  pkgs = @PKGS@;
  lib = pkgs.lib;
  host = pkgs.stdenv.hostPlatform;
  attrs = [ @ATTRS@];
  # Drop tests unavailable under the run's profile (see build_tests_expr doc),
  # recursing through `tests` sub-attrsets. Stops at derivations (never forces
  # their internals); each recursed leaf goes through `tryEval`, so a test that
  # throws when forced is passed through untouched to error on its own.
  mark = t:
    if lib.isDerivation t then
      (if (!(lib.meta.availableOn host t) && !@ALLOW_UNSUP@)
          || ((t.meta.knownVulnerabilities or [ ]) != [ ] && !@ALLOW_INSEC@)
       then { }
       else t)
    else if lib.isAttrs t then
      lib.mapAttrs (_: v: let r = builtins.tryEval (mark v); in if r.success then r.value else v) t
      // { recurseForDerivations = true; }
    else t;
  node = name: {
    recurseForDerivations = true;
    # Forced per-attr in a nix-eval-jobs worker: a package that fails to evaluate
    # errors only its own `<pkg>.tests`, never the whole run.
    tests =
      let
        pkg = lib.attrByPath (lib.splitString "." name) null pkgs;
        t = if pkg == null then null else (pkg.tests or null);
      in
        if lib.isDerivation t || lib.isAttrs t then mark t
        else { recurseForDerivations = true; };
  };
in
lib.listToAttrs (map (name: lib.nameValuePair name (node name)) attrs)
// { recurseForDerivations = true; }
"#;

/// A Nix boolean.
pub open spec fn nix_bool(b: bool) -> Seq<char> {
    if b {
        "true"@
    } else {
        "false"@
    }
}

/// The tests of packages as a tree of jobs `<pkg>.tests.<name>`. Each package
/// is forced in a worker of its own, so that one that throws spoils nothing but
/// its own tests; tests that the profile does not allow are left out.
pub fn build_tests_expr(
    repo: &str,
    rev: &str,
    system: &str,
    attrs: &[String],
    profile: Profile,
) -> (r: String)
    ensures
        r@ == text::replaced(
            text::replaced(
                text::replaced(
                    text::replaced(
                        TESTS_TEMPLATE@,
                        "@PKGS@"@,
                        import_text(repo@, rev@, system@, config_text(profile)),
                    ),
                    "@ATTRS@"@,
                    list_body(text::texts(attrs@)),
                ),
                "@ALLOW_UNSUP@"@,
                nix_bool(profile.unsupported),
            ),
            "@ALLOW_INSEC@"@,
            nix_bool(profile.insecure),
        ),
{
    let config = profile_config(profile);
    let pkgs = build_expr(repo, rev, system, config.as_str());
    let list = nix_string_list(attrs);
    let unsupported = if profile.unsupported {
        "true"
    } else {
        "false"
    };
    let insecure = if profile.insecure {
        "true"
    } else {
        "false"
    };
    let r = text::replace(TESTS_TEMPLATE, "@PKGS@", pkgs.as_str());
    let r = text::replace(r.as_str(), "@ATTRS@", list.as_str());
    let r = text::replace(r.as_str(), "@ALLOW_UNSUP@", unsupported);
    text::replace(r.as_str(), "@ALLOW_INSEC@", insecure)
}

// --- what the expressions promise --------------------------------------------

/// What the first character of a text becomes between quotes.
spec fn first_piece(a: Seq<char>) -> Seq<char> {
    if a[0] == '\\' || a[0] == '"' || (a[0] == '$' && a.len() > 1 && a[1] == '{') {
        seq!['\\', a[0]]
    } else {
        seq![a[0]]
    }
}

proof fn lemma_first_piece(a: Seq<char>, x: Seq<char>)
    requires
        a.len() > 0,
    ensures
        escaped(a) + seq!['"'] + x == first_piece(a) + (escaped(a.skip(1)) + seq!['"'] + x),
        first_piece(a)[0] != '"',
{
    assert(escaped(a) == first_piece(a) + escaped(a.skip(1)));
    assert(escaped(a) + seq!['"'] + x =~= first_piece(a) + (escaped(a.skip(1)) + seq!['"'] + x));
}

proof fn lemma_same_piece(a: Seq<char>, x: Seq<char>, b: Seq<char>, y: Seq<char>)
    requires
        a.len() > 0,
        b.len() > 0,
        first_piece(a) + x == first_piece(b) + y,
    ensures
        a[0] == b[0],
        x == y,
{
    let p = first_piece(a);
    let q = first_piece(b);
    let s = p + x;
    assert(s[0] == p[0]);
    assert(s == q + y);
    assert((q + y)[0] == q[0]);
    if p.len() == 2 {
        assert(q.len() == 2);
        assert(s[1] == p[1]);
        assert((q + y)[1] == q[1]);
    } else {
        assert(q.len() == 1);
    }
    let n = p.len() as int;
    assert(s.skip(n) =~= x);
    assert((q + y).skip(n) =~= y);
}

/// A literal ends where it ends: what is between its quotes, and what follows, can
/// be told from the text.
proof fn lemma_literal_ends(a: Seq<char>, x: Seq<char>, b: Seq<char>, y: Seq<char>)
    requires
        escaped(a) + seq!['"'] + x == escaped(b) + seq!['"'] + y,
    ensures
        a == b,
        x == y,
    decreases a.len(),
{
    let s = escaped(a) + seq!['"'] + x;
    let t = escaped(b) + seq!['"'] + y;
    if a.len() > 0 && b.len() > 0 {
        let a1 = a.skip(1);
        let b1 = b.skip(1);
        lemma_first_piece(a, x);
        lemma_first_piece(b, y);
        lemma_same_piece(
            a,
            escaped(a1) + seq!['"'] + x,
            b,
            escaped(b1) + seq!['"'] + y,
        );
        lemma_literal_ends(a1, x, b1, y);
        assert(a =~= seq![a[0]] + a1);
        assert(b =~= seq![b[0]] + b1);
    } else {
        if a.len() > 0 {
            lemma_first_piece(a, x);
            assert(t[0] == '"');
            assert(s[0] == first_piece(a)[0]);
        }
        if b.len() > 0 {
            lemma_first_piece(b, y);
            assert(s[0] == '"');
            assert(t[0] == first_piece(b)[0]);
        }
        assert(s.skip(1) =~= x);
        assert(t.skip(1) =~= y);
        assert(a =~= b);
    }
}

/// Two imports are the same only if all of it is: the repository, the revision, the
/// system and the configuration.
pub proof fn law_imports_differ_with_what_they_import(
    repo: Seq<char>,
    rev: Seq<char>,
    system: Seq<char>,
    config: Seq<char>,
    repo2: Seq<char>,
    rev2: Seq<char>,
    system2: Seq<char>,
    config2: Seq<char>,
)
    ensures
        import_text(repo, rev, system, config) == import_text(repo2, rev2, system2, config2)
            ==> repo == repo2 && rev == rev2 && system == system2 && config == config2,
{
    if import_text(repo, rev, system, config) == import_text(repo2, rev2, system2, config2) {
        lemma_import_shape(repo, rev, system, config);
        lemma_import_shape(repo2, rev2, system2, config2);
        let x3 = behind_quote("\"; config = "@) + config + "; }"@;
        let y3 = behind_quote("\"; config = "@) + config2 + "; }"@;
        let x2 = behind_quote("\"; }) { system = \""@) + literal(system, x3);
        let y2 = behind_quote("\"; }) { system = \""@) + literal(system2, y3);
        let x1 = behind_quote("\"; rev = \""@) + literal(rev, x2);
        let y1 = behind_quote("\"; rev = \""@) + literal(rev2, y2);
        lemma_same_literal("import (builtins.fetchGit { url = \""@, repo, x1, repo2, y1);
        lemma_same_literal(behind_quote("\"; rev = \""@), rev, x2, rev2, y2);
        lemma_same_literal(behind_quote("\"; }) { system = \""@), system, x3, system2, y3);
        let tail = "; }"@;
        let n = behind_quote("\"; config = "@).len() as int;
        assert(x3.len() == n + config.len() + tail.len());
        assert(y3.len() == n + config2.len() + tail.len());
        assert(config =~= x3.subrange(n, n + config.len()));
        assert(config2 =~= y3.subrange(n, n + config2.len()));
    }
}

/// What follows the quote that a text begins with.
spec fn behind_quote(s: Seq<char>) -> Seq<char> {
    s.skip(1)
}

/// What is between the quotes of a literal, the closing quote, and what follows.
spec fn literal(a: Seq<char>, x: Seq<char>) -> Seq<char> {
    escaped(a) + seq!['"'] + x
}

proof fn lemma_same_literal(
    front: Seq<char>,
    a: Seq<char>,
    x: Seq<char>,
    b: Seq<char>,
    y: Seq<char>,
)
    requires
        front + literal(a, x) == front + literal(b, y),
    ensures
        a == b,
        x == y,
{
    assert((front + literal(a, x)).skip(front.len() as int) =~= literal(a, x));
    assert((front + literal(b, y)).skip(front.len() as int) =~= literal(b, y));
    lemma_literal_ends(a, x, b, y);
}

proof fn lemma_import_shape(repo: Seq<char>, rev: Seq<char>, system: Seq<char>, config: Seq<char>)
    ensures
        import_text(repo, rev, system, config) == "import (builtins.fetchGit { url = \""@ + literal(
            repo,
            behind_quote("\"; rev = \""@) + literal(
                rev,
                behind_quote("\"; }) { system = \""@) + literal(
                    system,
                    behind_quote("\"; config = "@) + config + "; }"@,
                ),
            ),
        ),
{
    reveal_strlit("\"; rev = \"");
    reveal_strlit("\"; }) { system = \"");
    reveal_strlit("\"; config = ");
    let q = seq!['"'];
    let b = behind_quote("\"; rev = \""@);
    let c = behind_quote("\"; }) { system = \""@);
    let d = behind_quote("\"; config = "@);
    assert("\"; rev = \""@ =~= q + b);
    assert("\"; }) { system = \""@ =~= q + c);
    assert("\"; config = "@ =~= q + d);
    let x3 = d + config + "; }"@;
    let x2 = c + literal(system, x3);
    let x1 = b + literal(rev, x2);
    assert(import_text(repo, rev, system, config) =~= "import (builtins.fetchGit { url = \""@ + literal(
        repo,
        x1,
    ));
}

/// An import fetches the repository at the revision, and hands the package set the
/// system and the configuration as its arguments.
pub proof fn law_imports_name_what_they_import(
    repo: Seq<char>,
    rev: Seq<char>,
    system: Seq<char>,
    config: Seq<char>,
)
    ensures
        text::occurs(
            import_text(repo, rev, system, config),
            "fetchGit { url = \""@ + escaped(repo) + "\"; "@,
        ),
        text::occurs(
            import_text(repo, rev, system, config),
            "; rev = \""@ + escaped(rev) + "\"; }"@,
        ),
        text::ends(
            import_text(repo, rev, system, config),
            "{ system = \""@ + escaped(system) + "\"; config = "@ + config + "; }"@,
        ),
{
    reveal_strlit("import (builtins.fetchGit { url = \"");
    reveal_strlit("fetchGit { url = \"");
    reveal_strlit("\"; ");
    reveal_strlit("; rev = \"");
    reveal_strlit("\"; }");
    reveal_strlit("{ system = \"");
    reveal_strlit("\"; rev = \"");
    reveal_strlit("\"; }) { system = \"");
    let t = import_text(repo, rev, system, config);
    let head = "import (builtins.fetchGit { url = \""@;
    let b = "\"; rev = \""@;
    let c = "\"; }) { system = \""@;
    let rest = escaped(system) + "\"; config = "@ + config + "; }"@;
    let a1 = head.take(17);
    assert(head =~= a1 + "fetchGit { url = \""@);
    assert(b =~= "\"; "@ + b.skip(3));
    assert(t =~= a1 + ("fetchGit { url = \""@ + escaped(repo) + "\"; "@) + (b.skip(3) + escaped(rev)
        + c + rest));
    assert(b =~= b.take(1) + "; rev = \""@);
    assert(c =~= "\"; }"@ + c.skip(4));
    assert(t =~= (head + escaped(repo) + b.take(1)) + ("; rev = \""@ + escaped(rev) + "\"; }"@) + (
    c.skip(4) + rest));
    let last = "{ system = \""@ + escaped(system) + "\"; config = "@ + config + "; }"@;
    assert(c =~= c.take(6) + "{ system = \""@);
    assert(t =~= (head + escaped(repo) + b + escaped(rev) + c.take(6)) + last);
    text::law_prefixes_and_suffixes(
        t,
        last,
        head + escaped(repo) + b + escaped(rev) + c.take(6),
    );
}

/// A configuration always allows unfree packages and never aliases, allows of the
/// rest exactly what the profile allows, and says nothing more.
pub proof fn law_configurations_allow_what_the_profile_does(p: Profile)
    ensures
        text::begins(config_text(p), "{ allowUnfree = true; allowAliases = false;"@),
        text::ends(config_text(p), " }"@),
        p.broken ==> text::occurs(config_text(p), " allowBroken = true;"@),
        p.unsupported ==> text::occurs(config_text(p), " allowUnsupportedSystem = true;"@),
        p.insecure ==> text::occurs(config_text(p), " allowInsecurePredicate = _: true;"@),
        config_text(p).len() == 45 + (if p.broken {
            20int
        } else {
            0
        }) + (if p.unsupported {
            31int
        } else {
            0
        }) + (if p.insecure {
            34int
        } else {
            0
        }),
{
    reveal_strlit("{ allowUnfree = true; allowAliases = false;");
    reveal_strlit(" allowBroken = true;");
    reveal_strlit(" allowUnsupportedSystem = true;");
    reveal_strlit(" allowInsecurePredicate = _: true;");
    reveal_strlit(" }");
    let head = "{ allowUnfree = true; allowAliases = false;"@;
    let b = if p.broken {
        " allowBroken = true;"@
    } else {
        Seq::empty()
    };
    let u = if p.unsupported {
        " allowUnsupportedSystem = true;"@
    } else {
        Seq::empty()
    };
    let i = if p.insecure {
        " allowInsecurePredicate = _: true;"@
    } else {
        Seq::empty()
    };
    let end = " }"@;
    let t = config_text(p);
    assert(t =~= head + b + u + i + end);
    text::law_prefixes_and_suffixes(t, head, b + u + i + end);
    assert(t =~= head + (b + u + i + end));
    text::law_prefixes_and_suffixes(t, end, head + b + u + i);
    assert(t =~= head + b + (u + i + end));
    assert(t =~= (head + b) + u + (i + end));
    assert(t =~= (head + b + u) + i + end);
}

/// A list names its items one after another, each as a literal of its own.
pub proof fn law_lists_name_their_items(a: Seq<Seq<char>>, item: Seq<char>, b: Seq<Seq<char>>)
    ensures
        list_body(a + b) == list_body(a) + list_body(b),
        list_body(seq![item]) == seq!['"'] + escaped(item) + seq!['"', ' '],
        list_body(Seq::empty()) == Seq::<char>::empty(),
    decreases b.len(),
{
    reveal_strlit("\"");
    reveal_strlit("\" ");
    if b.len() == 0 {
        assert(a + b =~= a);
        assert(list_body(a) + list_body(b) =~= list_body(a));
    } else {
        assert((a + b).drop_last() =~= a + b.drop_last());
        law_lists_name_their_items(a, item, b.drop_last());
        assert(list_body(a + b) =~= list_body(a) + list_body(b));
    }
    assert(seq![item].drop_last() =~= Seq::<Seq<char>>::empty());
    assert(list_body(seq![item].drop_last()) =~= Seq::<char>::empty());
    assert(list_body(seq![item]) =~= seq!['"'] + escaped(item) + seq!['"', ' ']);
}

proof fn lemma_list_first(a: Seq<Seq<char>>)
    requires
        a.len() > 0,
    ensures
        list_body(a) == seq!['"'] + (escaped(a[0]) + seq!['"'] + (seq![' '] + list_body(a.skip(1)))),
{
    law_lists_name_their_items(seq![a[0]], a[0], a.skip(1));
    assert(seq![a[0]] + a.skip(1) =~= a);
    assert(list_body(a) =~= seq!['"'] + (escaped(a[0]) + seq!['"'] + (seq![' '] + list_body(
        a.skip(1),
    ))));
}

/// Two lists are the same only if they hold the same items in the same order: no
/// item is dropped, added or changed.
pub proof fn law_lists_differ_with_their_items(a: Seq<Seq<char>>, b: Seq<Seq<char>>)
    requires
        list_body(a) == list_body(b),
    ensures
        a == b,
    decreases a.len(),
{
    if a.len() == 0 || b.len() == 0 {
        if a.len() > 0 {
            lemma_list_first(a);
            assert(list_body(a).len() > 0);
        }
        if b.len() > 0 {
            lemma_list_first(b);
            assert(list_body(b).len() > 0);
        }
        assert(a =~= b);
    } else {
        lemma_list_first(a);
        lemma_list_first(b);
        let x = seq![' '] + list_body(a.skip(1));
        let y = seq![' '] + list_body(b.skip(1));
        assert(list_body(a).skip(1) =~= escaped(a[0]) + seq!['"'] + x);
        assert(list_body(b).skip(1) =~= escaped(b[0]) + seq!['"'] + y);
        lemma_literal_ends(a[0], x, b[0], y);
        assert(x.skip(1) =~= list_body(a.skip(1)));
        assert(y.skip(1) =~= list_body(b.skip(1)));
        law_lists_differ_with_their_items(a.skip(1), b.skip(1));
        assert(a =~= seq![a[0]] + a.skip(1));
        assert(b =~= seq![b[0]] + b.skip(1));
    }
}

/// Nix reads a boolean as it was meant.
pub proof fn law_booleans_are_spelled_out(b: bool)
    ensures
        nix_bool(b) == (if b {
            seq!['t', 'r', 'u', 'e']
        } else {
            seq!['f', 'a', 'l', 's', 'e']
        }),
{
    reveal_strlit("true");
    reveal_strlit("false");
    assert(nix_bool(true) =~= seq!['t', 'r', 'u', 'e']);
    assert(nix_bool(false) =~= seq!['f', 'a', 'l', 's', 'e']);
}

/// The expression for the tests of packages takes the package set and the packages
/// from the run; it looks every package up by its path, gives it the tests that it
/// has, under its name, and walks through sets of tests, where one that throws
/// spoils nothing else. It leaves a test out that the host cannot run or that is
/// known as insecure, unless the run allows that.
#[verifier::spinoff_prover]
pub proof fn law_tests_are_left_out_only_as_the_profile_says()
    ensures
        text::occurs(TESTS_TEMPLATE@, "pkgs = @PKGS@;"@),
        text::occurs(TESTS_TEMPLATE@, "attrs = [ @ATTRS@];"@),
        text::occurs(TESTS_TEMPLATE@, r#"(if (!(lib.meta.availableOn host t) && !@ALLOW_UNSUP@)
          || ((t.meta.knownVulnerabilities or [ ]) != [ ] && !@ALLOW_INSEC@)
       then { }
       else t)"#@),
        text::occurs(TESTS_TEMPLATE@, "if lib.isDerivation t || lib.isAttrs t then mark t"@),
        text::occurs(TESTS_TEMPLATE@, r#"pkg = lib.attrByPath (lib.splitString "." name) null pkgs;
        t = if pkg == null then null else (pkg.tests or null);"#@),
        text::occurs(TESTS_TEMPLATE@, r#"lib.listToAttrs (map (name: lib.nameValuePair name (node name)) attrs)
// { recurseForDerivations = true; }"#@),
        text::occurs(TESTS_TEMPLATE@, "lib.mapAttrs (_: v: let r = builtins.tryEval (mark v); in if r.success then r.value else v) t"@),
{
    reveal_strlit(
        r#"
let
  pkgs = @PKGS@;
  lib = pkgs.lib;
  host = pkgs.stdenv.hostPlatform;
  attrs = [ @ATTRS@];
  # Drop tests unavailable under the run's profile (see build_tests_expr doc),
  # recursing through `tests` sub-attrsets. Stops at derivations (never forces
  # their internals); each recursed leaf goes through `tryEval`, so a test that
  # throws when forced is passed through untouched to error on its own.
  mark = t:
    if lib.isDerivation t then
      (if (!(lib.meta.availableOn host t) && !@ALLOW_UNSUP@)
          || ((t.meta.knownVulnerabilities or [ ]) != [ ] && !@ALLOW_INSEC@)
       then { }
       else t)
    else if lib.isAttrs t then
      lib.mapAttrs (_: v: let r = builtins.tryEval (mark v); in if r.success then r.value else v) t
      // { recurseForDerivations = true; }
    else t;
  node = name: {
    recurseForDerivations = true;
    # Forced per-attr in a nix-eval-jobs worker: a package that fails to evaluate
    # errors only its own `<pkg>.tests`, never the whole run.
    tests =
      let
        pkg = lib.attrByPath (lib.splitString "." name) null pkgs;
        t = if pkg == null then null else (pkg.tests or null);
      in
        if lib.isDerivation t || lib.isAttrs t then mark t
        else { recurseForDerivations = true; };
  };
in
lib.listToAttrs (map (name: lib.nameValuePair name (node name)) attrs)
// { recurseForDerivations = true; }
"#,
    );
    let t = TESTS_TEMPLATE@;
    reveal_strlit("pkgs = @PKGS@;");
    assert(t =~= t.take(7) + "pkgs = @PKGS@;"@ + t.skip(21));
    reveal_strlit("attrs = [ @ATTRS@];");
    assert(t =~= t.take(77) + "attrs = [ @ATTRS@];"@ + t.skip(96));
    reveal_strlit(r#"(if (!(lib.meta.availableOn host t) && !@ALLOW_UNSUP@)
          || ((t.meta.knownVulnerabilities or [ ]) != [ ] && !@ALLOW_INSEC@)
       then { }
       else t)"#);
    assert(t =~= t.take(456) + r#"(if (!(lib.meta.availableOn host t) && !@ALLOW_UNSUP@)
          || ((t.meta.knownVulnerabilities or [ ]) != [ ] && !@ALLOW_INSEC@)
       then { }
       else t)"#@ + t.skip(618));
    reveal_strlit("if lib.isDerivation t || lib.isAttrs t then mark t");
    assert(t =~= t.take(1169) + "if lib.isDerivation t || lib.isAttrs t then mark t"@ + t.skip(1219));
    reveal_strlit(r#"pkg = lib.attrByPath (lib.splitString "." name) null pkgs;
        t = if pkg == null then null else (pkg.tests or null);"#);
    assert(t =~= t.take(1030) + r#"pkg = lib.attrByPath (lib.splitString "." name) null pkgs;
        t = if pkg == null then null else (pkg.tests or null);"#@ + t.skip(1151));
    reveal_strlit(r#"lib.listToAttrs (map (name: lib.nameValuePair name (node name)) attrs)
// { recurseForDerivations = true; }"#);
    assert(t =~= t.take(1276) + r#"lib.listToAttrs (map (name: lib.nameValuePair name (node name)) attrs)
// { recurseForDerivations = true; }"#@ + t.skip(1383));
    reveal_strlit("lib.mapAttrs (_: v: let r = builtins.tryEval (mark v); in if r.success then r.value else v) t");
    assert(t =~= t.take(656) + "lib.mapAttrs (_: v: let r = builtins.tryEval (mark v); in if r.success then r.value else v) t"@ + t.skip(749));
}

} // verus!
