# readback

Turns an interaction net back into a term of the lambda calculus, with proofs.

`reader::net_to_term` walks a net from its root. It gives a lambda, an application or a tuple for
a constructor, a pair, a superposition or a destructuring `let` for a fan, a switch for a switch
node, and an operation for operation nodes and the numbers below them. Parts of the net that have
no meaning as a term are reported as warnings.

What a net means is defined in `model`, apart from how it is computed. A walk need not end, since
a net can be cyclic, so the meaning is given for a bound on the depth of the walk (its fuel), and
`net_to_term` is called on nets for which some bound is enough.

| module | what it holds |
| --- | --- |
| `net`, `num`, `labels`, `book` | nets, the words of number nodes, the names of labels |
| `term`, `scope`, `split` | terms, their free variables, the insertion of a `let` |
| `name`, `namegen` | names, and the names of the variables of a net |
| `tuple`, `portset` | which constructors are tuples |
| `error`, `diagnostics` | errors, and how they are reported |
| `model` | what a net means |
| `reader` | the walk |
| `fuel`, `ending`, `sound`, `count` | which nets have a meaning, and that it does not depend on the fuel |
| `steps`, `follow`, `account` | single steps of a walk, what it keeps, what its variables stand for |
| `shortcut`, `nonlinear` | what a walk can skip, and what it leaves out of a non-linear net |

The proof functions whose names start with `law_` state what holds of the library as a whole.
