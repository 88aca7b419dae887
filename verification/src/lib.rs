pub mod args;
pub mod boundary;
pub mod canvas;
pub mod climate;
pub mod crust;
pub mod curves;
pub mod distance;
pub mod drainage;
pub mod draw;
pub mod erosion;
pub mod eruptions;
pub mod fixed;
pub mod flood;
pub mod genesis;
pub mod heap;
pub mod history;
pub mod hydrology;
pub mod landforms;
pub mod layer;
pub mod maps;
pub mod math;
pub mod measures;
pub mod motion;
pub mod noise;
pub mod options;
pub mod palette;
pub mod plate;
pub mod query;
pub mod ramp;
pub mod relief;
pub mod render;
pub mod rivers;
pub mod scalar;
pub mod select;
pub mod simulation;
pub mod sketch;
pub mod tectonics;
pub mod territory;
pub mod text;
pub mod volcanoes;
pub mod voronoi;
pub mod waterways;
pub mod world;
