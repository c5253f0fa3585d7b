//! Commands assembled from typed parts.
//!
//! A command is a sequence of parts; each part renders itself against a
//! caller-supplied context, and a command renders as the concatenation of
//! its parts.  The part type is a trait the using application implements,
//! so the context can be anything the parts need to read.

use vstd::prelude::*;

verus! {

/// One piece of a command line, rendered against a context.
pub trait CommandPart<C>: Sized {
    /// The text this part contributes.
    fn to_string(&self, context: &C) -> String;
}

/// A command: the concatenation of its parts.
pub struct Command<P, C> {
    pub parts: Vec<P>,
    pub ctx_phantom: core::marker::PhantomData<C>,
}

/// A named batch of commands.
pub struct CommandGroup<P, C> {
    pub commands: Vec<Command<P, C>>,
}

/// The flavours of command parts a configuration can name: literal text,
/// or a placeholder for the configuration file or folder.
pub enum CommandPartType {
    Direct(String),
    ConfigFile,
    ConfigFolder,
}

impl<P, C> Command<P, C> where P: CommandPart<C> {
    /// Renders the command: every part in order, concatenated.
    pub fn to_string(&self, context: &C) -> String {
        let mut result = String::new();
        let mut i: usize = 0;
        while i < self.parts.len()
            decreases self.parts.len() - i,
        {
            let part = self.parts[i].to_string(context);
            result.append(part.as_str());
            i += 1;
        }
        result
    }
}

impl<P, C> CommandGroup<P, C> where P: CommandPart<C> {
    /// Renders every command of the batch, one string per command.
    pub fn to_strings(&self, context: &C) -> (r: Vec<String>)
        ensures
            r@.len() == self.commands@.len(),
    {
        let mut result: Vec<String> = Vec::new();
        let mut i: usize = 0;
        while i < self.commands.len()
            invariant
                i <= self.commands@.len(),
                result@.len() == i,
            decreases self.commands.len() - i,
        {
            let s = self.commands[i].to_string(context);
            result.push(s);
            i += 1;
        }
        result
    }
}

} // verus!
