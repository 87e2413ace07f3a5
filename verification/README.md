# r-expr

Parses expression strings such as `user.profile:transform()`, `sum(10, 20)` or
`a.b > 5 && c() == "x"` into a `Value` tree: accessor chains (`a.b`, `a["k"]`, `a[0]`),
function calls and method calls with literal arguments, integer, float and string
literals, and the unary operators `! - ~` and binary operators `* / %`, `+ -`,
comparisons, `&&`, `||`, with the usual precedence and left associativity.

The library in `src/` carries machine-checked proofs:

- `grammar` states the grammar as spec functions over the characters of the input;
- `parser` holds `RExprParser`, whose associated functions are the rules, each proved to
  answer as its rule does; `parse` (in `lib.rs`) is proved to return what the grammar
  gives, or the error it gives, and `ParseError::IntegerOutOfRange` for an expression
  with an integer literal outside the `i64` range (`check_integer_range` tells which);
- `unescape` resolves the escape sequences of string literals, and proves that unescaping
  splits after an even run of backslashes;
- `sql` turns a value into the SQL expression a query builder takes (`ToSeaQuery`);
- `laws` and `parens` prove properties of every parse: the shapes results have, where
  a trailing-input error points, and that parentheses around an expression keep its value;
- `precedence` proves how operators group (left to right within a level, tighter levels
  first, prefix operators nesting), and `chains` how accessor and method chains grow to
  the left; `context` and `prefix` hold the lemmas these rest on, which compare a rule on
  a text with the same rule on a longer text.

A float literal is kept in the `Value` as the text it was written with. `app/` holds what
needs floating point, serde or sea-query: a `Value` with `f64` floats and serde support,
`Display` for the operators, and a `ToSeaQuery` that builds a `sea_query::SimpleExpr`
from the SQL expression the library computes.
