//! Game logic of a river-crossing solitaire: foxes, rabbits and carrots are
//! carried across a river in stacks, and the player loses as soon as one side
//! of the river holds a predator that outnumbers its prey.
pub mod game;
