//! The commands under which the benchmarks run, and the registry that finds
//! a command by its name.

use vstd::prelude::*;

verus! {

/// The benchmarks that a command can run: one for each heap.
#[derive(Clone, Copy, Debug, PartialEq, Eq, Structural)]
pub enum Benchmark {
    Leftist,
    Binomial,
    Binary,
}

/// A command: its name, what it is for, and the benchmark that it runs.
pub struct CommandDescriptor {
    pub name: String,
    pub description: String,
    pub action: Benchmark,
}

impl CommandDescriptor {
    /// The command has this name and description and runs this benchmark.
    pub open spec fn describes(
        &self,
        name: Seq<char>,
        description: Seq<char>,
        benchmark: Benchmark,
    ) -> bool {
        &&& self.name@ == name
        &&& self.description@ == description
        &&& self.action == benchmark
    }

    /// A command of the given name and description that runs `action`.
    pub fn new(name: &str, description: &str, action: Benchmark) -> (descriptor: Self)
        ensures
            descriptor.describes(name@, description@, action),
    {
        CommandDescriptor { name: name.to_owned(), description: description.to_owned(), action }
    }

    /// What running the command comes to: the benchmark that is to be run.
    pub fn execute(&self) -> (benchmark: Benchmark)
        ensures
            benchmark == self.action,
    {
        self.action
    }
}

/// The map that a sequence of commands stands for: each name leads to the
/// last command of that name.
pub open spec fn commands_by_name(commands: Seq<CommandDescriptor>) -> Map<
    Seq<char>,
    CommandDescriptor,
>
    decreases commands.len(),
{
    if commands.len() == 0 {
        Map::empty()
    } else {
        commands_by_name(commands.drop_last()).insert(commands.last().name@, commands.last())
    }
}

/// No two commands of the sequence have the same name.
pub open spec fn distinct_names(commands: Seq<CommandDescriptor>) -> bool {
    forall|i: int, j: int|
        0 <= i < j < commands.len() ==> (#[trigger] commands[i]).name@ != (
        #[trigger] commands[j]).name@
}

/// The names that lead somewhere are the names of the commands.
pub proof fn lemma_commands_names(commands: Seq<CommandDescriptor>, name: Seq<char>)
    ensures
        commands_by_name(commands).contains_key(name) <==> exists|i: int|
            0 <= i < commands.len() && (#[trigger] commands[i]).name@ == name,
    decreases commands.len(),
{
    if commands.len() > 0 {
        let rest = commands.drop_last();
        lemma_commands_names(rest, name);
        if commands.last().name@ != name && commands_by_name(rest).contains_key(name) {
            let i = choose|i: int| 0 <= i < rest.len() && (#[trigger] rest[i]).name@ == name;
            assert(commands[i].name@ == name);
        }
        if exists|i: int| 0 <= i < commands.len() && (#[trigger] commands[i]).name@ == name {
            let i = choose|i: int| 0 <= i < commands.len() && (#[trigger] commands[i]).name@ == name;
            if i < commands.len() - 1 {
                assert(rest[i].name@ == name);
            }
        }
    }
}

/// Where no name occurs twice, the name of each command leads to it.
pub proof fn lemma_commands_value(commands: Seq<CommandDescriptor>, i: int)
    requires
        distinct_names(commands),
        0 <= i < commands.len(),
    ensures
        commands_by_name(commands).contains_key(commands[i].name@),
        commands_by_name(commands)[commands[i].name@] == commands[i],
    decreases commands.len(),
{
    if i < commands.len() - 1 {
        lemma_commands_value(commands.drop_last(), i);
    }
}

/// Where no name occurs twice, a command put in the place of one of its
/// own name replaces what the name led to, and nothing else.
pub proof fn lemma_commands_update(
    commands: Seq<CommandDescriptor>,
    i: int,
    descriptor: CommandDescriptor,
)
    requires
        distinct_names(commands),
        0 <= i < commands.len(),
        commands[i].name@ == descriptor.name@,
    ensures
        distinct_names(commands.update(i, descriptor)),
        commands_by_name(commands.update(i, descriptor)) == commands_by_name(commands).insert(
            descriptor.name@,
            descriptor,
        ),
    decreases commands.len(),
{
    let after = commands.update(i, descriptor);
    assert forall|a: int, b: int| 0 <= a < b < after.len() implies (#[trigger] after[a]).name@ != (
    #[trigger] after[b]).name@ by {
        assert(after[a].name@ == commands[a].name@ && after[b].name@ == commands[b].name@);
    }
    if i == commands.len() - 1 {
        assert(after.drop_last() =~= commands.drop_last());
    } else {
        assert(after.drop_last() =~= commands.drop_last().update(i, descriptor));
        lemma_commands_update(commands.drop_last(), i, descriptor);
    }
}

/// The registry of commands: a map from names to commands. Its view is that
/// map.
pub struct CommandMap {
    commands: Vec<CommandDescriptor>,
}

impl View for CommandMap {
    type V = Map<Seq<char>, CommandDescriptor>;

    closed spec fn view(&self) -> Map<Seq<char>, CommandDescriptor> {
        commands_by_name(self.commands@)
    }
}

impl CommandMap {
    /// No name is registered twice.
    pub closed spec fn well_formed(&self) -> bool {
        distinct_names(self.commands@)
    }

    /// The commands in the order in which their names were first
    /// registered.
    pub closed spec fn listing(&self) -> Seq<CommandDescriptor> {
        self.commands@
    }

    /// An empty registry.
    pub fn new() -> (map: Self)
        ensures
            map.well_formed(),
            map@ == Map::<Seq<char>, CommandDescriptor>::empty(),
            map.listing() == Seq::<CommandDescriptor>::empty(),
    {
        CommandMap { commands: Vec::new() }
    }

    /// The place of the command of the given name, if there is one.
    fn position(&self, name: &String) -> (place: Option<usize>)
        ensures
            match place {
                Some(i) => i < self.commands@.len() && self.commands@[i as int].name@ == name@,
                None => forall|i: int|
                    0 <= i < self.commands@.len() ==> (#[trigger] self.commands@[i]).name@
                        != name@,
            },
    {
        let mut i: usize = 0;
        while i < self.commands.len()
            invariant
                i <= self.commands@.len(),
                forall|k: int| 0 <= k < i ==> (#[trigger] self.commands@[k]).name@ != name@,
            decreases self.commands@.len() - i,
        {
            if self.commands[i].name == *name {
                return Some(i);
            }
            i += 1;
        }
        None
    }

    /// Registers a command under its name. A command that was registered
    /// under that name before is replaced.
    pub fn add(&mut self, descriptor: CommandDescriptor)
        requires
            old(self).well_formed(),
        ensures
            final(self).well_formed(),
            final(self)@ == old(self)@.insert(descriptor.name@, descriptor),
            !old(self)@.contains_key(descriptor.name@) ==> final(self).listing() == old(
                self,
            ).listing().push(descriptor),
            old(self)@.contains_key(descriptor.name@) ==> exists|i: int|
                0 <= i < old(self).listing().len() && (#[trigger] old(self).listing()[i]).name@
                    == descriptor.name@ && final(self).listing() == old(self).listing().update(
                    i,
                    descriptor,
                ),
    {
        proof {
            lemma_commands_names(self.commands@, descriptor.name@);
        }
        match self.position(&descriptor.name) {
            Some(i) => {
                proof {
                    lemma_commands_update(self.commands@, i as int, descriptor);
                }
                self.commands.set(i, descriptor);
                proof {
                    assert(old(self).listing()[i as int].name@ == descriptor.name@);
                    assert(self.listing() == old(self).listing().update(i as int, descriptor));
                }
            },
            None => {
                self.commands.push(descriptor);
                proof {
                    assert(self.commands@.drop_last() =~= old(self).commands@);
                }
            },
        }
    }

    /// The command registered under `name`, if there is one.
    pub fn get(&self, name: &str) -> (found: Option<&CommandDescriptor>)
        requires
            self.well_formed(),
        ensures
            match found {
                Some(descriptor) => self@.contains_key(name@) && *descriptor == self@[name@]
                    && descriptor.name@ == name@,
                None => !self@.contains_key(name@),
            },
    {
        let key = name.to_owned();
        match self.position(&key) {
            Some(i) => {
                proof {
                    lemma_commands_value(self.commands@, i as int);
                }
                Some(&self.commands[i])
            },
            None => {
                proof {
                    lemma_commands_names(self.commands@, name@);
                }
                None
            },
        }
    }

    /// The registered commands, in the order in which their names were
    /// first registered.
    pub fn descriptors(&self) -> (commands: &Vec<CommandDescriptor>)
        ensures
            commands@ == self.listing(),
    {
        &self.commands
    }

    /// What the listing and the map have to do with each other: the map
    /// leads from the name of each listed command to that command, and its
    /// names are those of the listed commands.
    pub proof fn lemma_listing(&self)
        requires
            self.well_formed(),
        ensures
            self@ == commands_by_name(self.listing()),
            distinct_names(self.listing()),
    {
    }
}

} // verus!
