# fotobuch

Page assignment for photobooks. Photos come in groups (an event, a folder);
the library cuts the photo sequence into pages. An assignment is feasible
when every page holds between `photos_per_page_min` and
`photos_per_page_max` photos and at most `group_max_per_page` groups, and no
split group leaves fewer than `group_min_photos` photos on a page. The
dynamic program admits only feasible assignments; the greedy start solution
keeps the page count and page size limits wherever the number of photos
allows it, but may break the group rules.

The library in `src/` is written in Verus; every function carries a
contract that Verus proves:

- `model`: groups as cumulative ends, page assignments as cut points, the
  solver parameters and their validation
- `feasibility`: the hard constraints and the first one an assignment breaks
- `perturbation`: moving one cut, as the local search does
- `photo`: photos, group names and their order
- `start_solution`: the greedy start solution, the fallback of the solver
- `page_problem`: the assignment as a dynamic program over `(photos placed,
  pages used)`, with the proof that every path it admits is feasible
- `grid_cache`: the dense memo table of the dynamic program
- `mip`: reading an assignment out of a solution of the integer program
- `book`, `cover`, `ga`: the finished book, cover modes, genetic operators

`app/` holds what works with real numbers or an outside solver: the costs of
the dynamic program and its Bellman solver, the integer program built with
`good_lp`, the local search over cut points, page geometry, and error types
with their messages.
`tests/` exercises the library on concrete cases.
