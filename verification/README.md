# qmbed

Exact diagonalization of quantum many-body models, written in Verus: bases of
spins, bosons and fermions with their symmetry sectors, the operators on them,
and what is measured on their states. Every public function of `src/` carries
a contract that Verus proves.

## Layout

| Part | Modules |
|---|---|
| Packed words | `bits`, `digits`, `weights`, `combinatorics`, `ordered`, `table`, `wide`, `bigint`, `erased` |
| Bases | `basis`, `spin`, `boson`, `fermion`, `spinful`, `photon`, `tensor`, `user`, `callback`, `occupation`, `wide_spin`, `packed`, `wide_packed` |
| Local algebra | `symbols`, `amplitudes`, `spin_algebra`, `boson_algebra`, `fermion_algebra` |
| Symmetry | `permutation`, `lattice`, `lattice_map`, `lattice_sectors`, `closure_map`, `orbits`, `symmetry`, `general`, `general_sector`, `reduction`, `matrix_symmetry`, `matrix_subspace` |
| Operators | `linear`, `exact`, `family`, `model`, `checks`, `assembly`, `additivity`, `merging`, `sector_shift`, `interop`, `archive`, `block`, `family_blocks`, `projection`, `projector`, `lift`, `isometry`, `crossing`, `time_block`, `time_operator` |
| States and measurement | `numbers`, `statistics`, `observables`, `ensemble`, `subsystem`, `density`, `exchange`, `phases`, `entanglement`, `coherent`, `arrays` |
| Dynamics | `evolution`, `floquet`, `floquet_spectrum`, `response` |
| Derivatives | `ad`, `ground_state` |
| Failures | `error` |

Public proof functions named `law_...` state what holds across functions.

Amplitudes enter the library as exact factors (an integer, a root, a fraction
of the circle), and the numerical code is generic in its scalars. The traits
`Scalar`, `RealNumber` and their companions say what a scalar has to offer;
`Gaussian` and `Whole` are exact implementations; an amplitude that is no
Gaussian integer is refused with an error. Dense solvers come in through traits
too, such as `SingularValues`, `Propagation` and `PropagatorSolver`.

`app/` implements the traits for double precision and adds what needs threads,
locks, closures or the differentiation rules of `chainrules-core`.

## Trust

`num-bigint` holds big integers, `smallvec` holds short lists in place; the
functions that call them, and `count_ones` of the standard library, are the
only code that Verus takes on trust. Each says in its doc comment what is
claimed.
