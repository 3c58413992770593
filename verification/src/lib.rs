//! Exact-diagonalization bases: packed states, sectors, symmetries and layouts.

pub mod ad;
pub mod additivity;
pub mod amplitudes;
pub mod archive;
pub mod arrays;
pub mod assembly;
pub mod basis;
pub mod bigint;
pub mod bits;
pub mod bloch;
pub mod bloch_fermions;
pub mod bloch_general;
pub mod block;
pub mod boson;
pub mod boson_algebra;
pub mod callback;
pub mod checks;
pub mod closure_map;
pub mod coherent;
pub mod combinatorics;
pub mod crossing;
pub mod density;
pub mod digits;
pub mod eigenphases;
pub mod elements;
pub mod ensemble;
pub mod ensemble_laws;
pub mod entanglement;
pub mod erased;
pub mod error;
pub mod evolution;
pub mod exact;
pub mod exact_numbers;
pub mod exchange;
pub mod exchange_laws;
pub mod family;
pub mod family_blocks;
pub mod fermion;
pub mod fermion_algebra;
pub mod floquet;
pub mod floquet_spectrum;
pub mod general;
pub mod general_sector;
pub mod gradient_laws;
pub mod ground_state;
pub mod interop;
pub mod isometry;
pub mod lattice;
pub mod lattice_map;
pub mod lattice_sectors;
pub mod level_laws;
pub mod lift;
pub mod line_shapes;
pub mod linear;
pub mod matrix_subspace;
pub mod matrix_symmetry;
pub mod measure_laws;
pub mod merging;
pub mod model;
pub mod numbers;
pub mod observables;
pub mod occupation;
pub mod orbits;
pub mod ordered;
pub mod packed;
pub mod partial_traces;
pub mod permutation;
pub mod phases;
pub mod photon;
pub mod product_laws;
pub mod projection;
pub mod projection_laws;
pub mod projector;
pub mod reduction;
pub mod response;
pub mod sector_shift;
pub mod sector_traces;
pub mod spectral_laws;
pub mod spin;
pub mod spin_algebra;
pub mod spinful;
pub mod statistics;
pub mod subsystem;
pub mod sums;
pub mod symbols;
pub mod symmetry;
pub mod table;
pub mod tensor;
pub mod time_block;
pub mod time_operator;
pub mod user;
pub mod weights;
pub mod wide;
pub mod wide_algebra;
pub mod wide_packed;
pub mod wide_spin;
pub mod word_algebra;
