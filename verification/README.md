# inst_order

`inst_order` turns the control-flow graph of a function into structured code:
conditionals, endless loops, `break` and `continue`, with every instruction in
its place. All of it is verified with Verus.

`InstSerializer::new` takes a function body and what is known of its control
flow: the graph, the loops, the dominance frontiers and the immediate post
dominators. `is_serializable` tells whether the function can be expressed as
structured code, and `serialize` does so.

| module | |
|---|---|
| `ir` | function bodies: instructions, and the blocks in which they stand |
| `analysis` | what is known of a body's control flow |
| `scope` | the loops and conditionals around the code being listed |
| `flow` | what the structured code of a function is |
| `serializer` | listing a function as structured code |
| `walk` | the places that a listing visits, and when it comes to an end |
| `admission` | telling whether a function can be listed |
| `steps` | structured code |
| `run` | what happens when a function, or structured code, runs |
| `simulation` | structured code runs as the function does, if its conditionals nest |
| `dominance` | ways that control can go, and what is true of a function's control flow |
| `exits` | where control goes on after a loop, if what is known of a function is true |
| `nesting` | conditionals nest where what is known of a function is true |
| `coverage` | structured code runs just the instructions that control can get to |
| `nops` | instructions that do nothing make no difference |
| `shape` | what structured code looks like |
| `fx` | the hash set of `fxhash`, with what is relied on of it |

`app/` lists MIR function bodies: it has `fe_mir` analyse them, and hands what
comes out to the library.
