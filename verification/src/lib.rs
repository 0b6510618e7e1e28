//! verified kernel of the blit ui toolkit

pub mod cache;
pub mod command_list;
pub mod geometry;
pub mod damage;
pub mod repaint;
pub mod animation;
pub mod color;
pub mod input;
pub mod image;
pub mod frame;
pub mod interact;
pub mod container;
pub mod element;
pub mod layout;
pub mod resource;
pub mod rounded;
pub mod clip;
pub mod scanline;
pub mod image_store;
