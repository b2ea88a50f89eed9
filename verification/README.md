# silica_mir

Verified passes over the Silica mid-level intermediate representation, from
declarations and control-flow graphs down to textual LLVM IR. The library is
written in Verus: every function states what it computes over mathematical
models of its arguments, and Verus proves that it does.

## Layout

- `text`, `common`, `types`, `type_tree`, `place`, `ast`, `body`: the
  representation. Each type `X` has a model `XView`, and `x@` is the model of
  `x`. A model of a type leaves sources out; its tree keeps them.
- `table`: names with values in the order of insertion, indexed by `indexmap`.
- `subst`, `body_subst`, `matching`, `header_match`, `helpers`, `intrinsics`,
  `intrinsic_names`: substitution, matching of impl headers, builders and the
  table of intrinsics.
- `env`, `typing`, `type_sources`, `type_errors`, `layout`, `traversal`: the
  program indexed by name, types of places and values and where they are
  written, sizes and the order of declarations.
- `cfg_edit`, `dataflow`, `block_reachability`: edge splitting, the solver for
  dataflow analyses and the search for dead blocks.
- `desugar`, `elision`, `reference_names`, `copy_relaxation`, `relaxed_reads`:
  passes on programs as written.
- `lifetime`: regions, outlives constraints, loans, the ends of borrows
  (`nll`, with `borrowers`, `last_uses`, `needed`, `only_ends` and `ends_once`)
  and the check of all of them.
- `mono`, `need_order`: one declaration per instantiation.
- `codegen`, `float_bits`: LLVM IR.
- `line_diff`: differences between two texts.

## Laws

Besides the contract of each function the library states what holds of several
functions together, as public proof functions.

Passes that change nothing the second time: `lemma_relaxation_idempotent`,
`lemma_desugar_idempotent`, `lemma_alias_idempotent`, `lemma_naming_idempotent`,
`lemma_split_edge_idempotent`, and `lemma_elaborated_once` for the ends of
borrows. The last one speaks of a program that declares each name once and is
indexed again between the runs, and of bodies that are in order (`in_order`):

- labels are distinct and targets exist, and no type names one of its parts
  twice;
- no block leads both to a block and to a split in front of it, where something
  ends on the edge;
- control comes back to the start only where no unused parameter ends there;
- no reference gets a new value between the last use in a block of one that was
  taken from it and a later use (`steady`), so that a cursor which moves through
  itself (`s = & p.*; p = copy s`) is left out;
- where a reference ends, what it was taken from lives on or ends behind it
  (`returned`), so that a last use which moves the source away is left out. Where
  no reference is taken from another in a circle it is enough that the sources
  live on or end at the same place (`lemma_returned`);
- what a reference is taken from is a reference of its own, or was not taken
  from anything (`straight`).

Where things end up: an end of a borrow stands behind the last use of the
reference (`lemma_end_behind_last_use`, `lemma_edge_behind_last_use`), and
nothing but such ends is added (`lemma_only_ends`), each of an owned path that
holds a reference (`lemma_borrowers`), none of them inside another
(`lemma_no_overlap`). A parameter that is never used ends at the
start of the first block, also where control comes back there. Every use
of a declared type has the lifetimes that the type takes in the end
(`lemma_fields_filled`, `lemma_function_filled`, `lemma_signature_filled`), only
reads of owned values that are needed later become copies
(`lemma_only_reads_change`), names for elided lifetimes are new and come last
(`lemma_function_named`, `lemma_declaration_named`), every lifetime that is read
through a parameter, as an argument of a named type too, outlives the new
lifetimes that the callee writes (`lemma_inputs_outlive`), and an edge edit
touches the named edge alone (`lemma_retargeted`).

Where types are written: the program indexed by name has the types that the
declarations write (`all_declared`), the type of a place is the one that its
declaration writes, with what the arguments write put in (`place_tree`), passes
on bodies leave all of them alone, those inside statements too (`same_types`,
`types_kept`, `body_written`), and types of a monomorphized program come from
where the program and its arguments write them (`types_descend`, a clause of
`monomorphize`).

What is left: no `take` survives copy relaxation, neither as an operand nor in an
index of a place (`lemma_no_take_survives`), no `Self` and nothing generic is
left (`lemma_no_self_left`, `lemma_nothing_generic_left`), and projected
constraints speak of the regions of the caller alone and say of them what all
constraints imply (`lemma_projection_exact`).

What is found: a header matches exactly what its parameters can be replaced to
give (`lemma_header_sound`, `lemma_header_complete`, `lemma_inherent_sound`,
`lemma_inherent_complete`), and each intrinsic is found by its name
(`lemma_names_distinct`, `lemma_found_by_name`).

The order in which passes work: `lemma_each_need_once`,
`lemma_registered_twice`, `lemma_lifetimes_apart`, `lemma_sorted`.

## What is trusted

`indexmap::IndexMap` with its `new`, `insert` and `get`, `String::push`, and
what `{:?}` writes for a string. Their contracts stand in `table`, `text` and
`line_diff`.
