//! The benchmarks of the three heaps: their commands, the sizes of their
//! inputs and the files that take their results.

use vstd::prelude::*;
use crate::analysis::commands::{Benchmark, CommandDescriptor, CommandMap};

verus! {

/// The input sizes of a benchmark, in the order in which it takes them. The
/// binary heap is also run on four larger inputs.
pub open spec fn input_sizes_of(benchmark: Benchmark) -> Seq<i32> {
    let common = seq![
        10_000i32,
        50_000i32,
        100_000i32,
        150_000i32,
        200_000i32,
        250_000i32,
        300_000i32,
        350_000i32,
        400_000i32,
        450_000i32,
        500_000i32,
    ];
    match benchmark {
        Benchmark::Binary => common + seq![700_000i32, 1_000_000i32, 2_000_000i32, 4_000_000i32],
        _ => common,
    }
}

/// The file that takes the results of a benchmark, for inputs in ascending
/// order or for random ones.
pub open spec fn output_file_of(benchmark: Benchmark, random: bool) -> Seq<char> {
    match (benchmark, random) {
        (Benchmark::Leftist, false) => "data/leftist_heap_insert.csv"@,
        (Benchmark::Leftist, true) => "data/leftist_heap_insert_random.csv"@,
        (Benchmark::Binomial, false) => "data/binomial_heap_insert.csv"@,
        (Benchmark::Binomial, true) => "data/binomial_heap_insert_random.csv"@,
        (Benchmark::Binary, false) => "data/binary_heap_vec_insert.csv"@,
        (Benchmark::Binary, true) => "data/binary_heap_vec_insert_random.csv"@,
    }
}

/// The input sizes of a benchmark.
pub fn input_sizes(benchmark: Benchmark) -> (sizes: Vec<i32>)
    ensures
        sizes@ == input_sizes_of(benchmark),
        forall|i: int| 0 <= i < sizes@.len() ==> 0 < #[trigger] sizes@[i],
{
    let mut sizes: Vec<i32> = vec![
        10_000,
        50_000,
        100_000,
        150_000,
        200_000,
        250_000,
        300_000,
        350_000,
        400_000,
        450_000,
        500_000,
    ];
    match benchmark {
        Benchmark::Binary => {
            sizes.push(700_000);
            sizes.push(1_000_000);
            sizes.push(2_000_000);
            sizes.push(4_000_000);
        },
        _ => {},
    }
    sizes
}

/// The file that takes the results of a benchmark.
pub fn output_file(benchmark: Benchmark, random: bool) -> (name: &'static str)
    ensures
        name@ == output_file_of(benchmark, random),
{
    match (benchmark, random) {
        (Benchmark::Leftist, false) => "data/leftist_heap_insert.csv",
        (Benchmark::Leftist, true) => "data/leftist_heap_insert_random.csv",
        (Benchmark::Binomial, false) => "data/binomial_heap_insert.csv",
        (Benchmark::Binomial, true) => "data/binomial_heap_insert_random.csv",
        (Benchmark::Binary, false) => "data/binary_heap_vec_insert.csv",
        (Benchmark::Binary, true) => "data/binary_heap_vec_insert_random.csv",
    }
}

/// The name and the description of the command that runs a benchmark.
pub open spec fn command_of(benchmark: Benchmark) -> (Seq<char>, Seq<char>) {
    match benchmark {
        Benchmark::Leftist => (
            "analyze-heap-leftist"@,
            "Run runtime analysis for leftist heap"@,
        ),
        Benchmark::Binomial => (
            "analyze-heap-binomial"@,
            "Run runtime analysis for binomial heap"@,
        ),
        Benchmark::Binary => ("analyze-heap-binary"@, "Run runtime analysis for binary heap"@),
    }
}

/// Under the name of the command of `benchmark` the registry holds a
/// command of that name, with its description, that runs `benchmark`.
pub open spec fn runs(registry: Map<Seq<char>, CommandDescriptor>, benchmark: Benchmark) -> bool {
    &&& registry.contains_key(command_of(benchmark).0)
    &&& registry[command_of(benchmark).0].describes(
        command_of(benchmark).0,
        command_of(benchmark).1,
        benchmark,
    )
}

/// `name` is the name of the command of one of the benchmarks.
pub open spec fn names_benchmark(name: Seq<char>) -> bool {
    ||| name == command_of(Benchmark::Leftist).0
    ||| name == command_of(Benchmark::Binomial).0
    ||| name == command_of(Benchmark::Binary).0
}

/// The commands of the three benchmarks have three different names.
pub proof fn lemma_command_names_differ()
    ensures
        command_of(Benchmark::Leftist).0 != command_of(Benchmark::Binomial).0,
        command_of(Benchmark::Leftist).0 != command_of(Benchmark::Binary).0,
        command_of(Benchmark::Binomial).0 != command_of(Benchmark::Binary).0,
{
    reveal_strlit("analyze-heap-leftist");
    reveal_strlit("analyze-heap-binomial");
    reveal_strlit("analyze-heap-binary");
    assert("analyze-heap-leftist"@.len() == 20);
    assert("analyze-heap-binomial"@.len() == 21);
    assert("analyze-heap-binary"@.len() == 19);
}

/// Registers the command of each benchmark: one for the leftist, one for
/// the binomial and one for the binary heap. What was registered under
/// other names stays.
pub fn register_commands(cm: &mut CommandMap)
    requires
        old(cm).well_formed(),
    ensures
        final(cm).well_formed(),
        forall|name: Seq<char>|
            #![trigger final(cm)@.contains_key(name)]
            final(cm)@.contains_key(name) <==> old(cm)@.contains_key(name) || names_benchmark(
                name,
            ),
        forall|name: Seq<char>|
            #![trigger final(cm)@[name]]
            old(cm)@.contains_key(name) && !names_benchmark(name) ==> final(cm)@[name] == old(
                cm,
            )@[name],
        runs(final(cm)@, Benchmark::Leftist),
        runs(final(cm)@, Benchmark::Binomial),
        runs(final(cm)@, Benchmark::Binary),
{
    proof {
        lemma_command_names_differ();
    }
    cm.add(
        CommandDescriptor::new(
            "analyze-heap-leftist",
            "Run runtime analysis for leftist heap",
            Benchmark::Leftist,
        ),
    );
    cm.add(
        CommandDescriptor::new(
            "analyze-heap-binomial",
            "Run runtime analysis for binomial heap",
            Benchmark::Binomial,
        ),
    );
    cm.add(
        CommandDescriptor::new(
            "analyze-heap-binary",
            "Run runtime analysis for binary heap",
            Benchmark::Binary,
        ),
    );
}

} // verus!
