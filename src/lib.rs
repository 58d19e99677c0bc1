// Tile placement and sheet synchronisation for wiki tilesheets.
//
// raster:  8-bit RGBA buffers and the translucency fix applied to new tiles
// sheet:   one growable canvas per cell size and depth layer
// manager: the registry of one namespace, the diagonal cell allocator, and the
//          reconciliation of a local scan against the remote registry
// names:   tile names, the rename table and its file format
// batch:   registry requests of bounded size
// sizes:   the list of cell sizes an operator types
// upload:  what follows the wiki's answer to an upload
// prompt:  the operator's confirmation
// recipes: crafting totals over a recipe tree
pub mod batch;
pub mod manager;
pub mod names;
pub mod prompt;
pub mod raster;
pub mod recipes;
pub mod sheet;
pub mod sizes;
pub mod upload;
