//! A flock of agents ("boids") on a bounded plane, updated tick by tick.
//!
//! The plane is cut into square cells whose edge is the agents' visual range;
//! each cell keeps a bucket of the agents inside it. An update samples a few
//! neighbors from the agent's own bucket and from the cells along its sight
//! cone, applies cohesion, separation and alignment, a random turn, boundary
//! avoidance and a speed clamp, moves the agent and re-buckets it.
//!
//! All quantities are integers in fixed point: `fixed::ONE` stands for one
//! unit of length, or for 1.0 in a coefficient, a cosine or a sine.
pub mod boid;
pub mod boid_cloud;
pub mod fixed;
pub mod geom;
pub mod opt;
pub mod rng;
