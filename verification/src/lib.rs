pub mod text;
pub mod track_params;
pub mod keyframe;
pub mod easing;
pub mod module;
pub mod effect;
pub mod usage;
pub mod bindings;
pub mod object;
pub mod catalog;
