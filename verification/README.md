# change_to_rule

Given a source file before and after an expression in it was changed, this library makes the
Rerast rule that makes the same change elsewhere. What stayed the same within the expression
becomes a placeholder:

    bar(a * 2 + 1)   changed to   baz(a * 2)

gives

    use ::bar; use ::baz; fn r1(p0: i32) {replace!(bar(p0 + 1) => baz(p0));}

The library is verified with Verus. It does not compile anything itself: a program that uses it
compiles both versions of the code, and hands over the source files and the expressions that the
compiler found in them.

- `change` finds the part of the file that differs.
- `codemap` and `span` hold source files and positions in them, `token` holds tokens, and `hir`
  holds what the compiler found.
- `rule_finder` finds the innermost expression around the changed part.
- `candidate` finds what could become a placeholder, and `matcher` what does.
- `paths` finds what a rule has to import, and `rule` writes the rule.
- `analysis` puts these together for one version of the code, and `session` decides which version
  is to be compiled next.
- `order` and `text` hold the orders that a rule follows.
- `laws` states what holds of all of this together.

`app/` is the program around the library. It needs the compiler's own crates.
