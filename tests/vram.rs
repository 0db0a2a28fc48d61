use agb_hashmap::vram_manager::{Palette16, TileFormat, TileSet, VRamManager};

#[test]
fn new_manager_has_black_palette() {
    let manager = VRamManager::new();
    assert_eq!(manager.background_palette().len(), 256);
    assert!(manager.background_palette().iter().all(|&c| c == 0));
}

#[test]
fn tiles_share_slots_and_free_them() {
    let data = [0u32; 64];
    let mut manager = VRamManager::new();
    let set = manager.add_tileset(TileSet::new(&data, TileFormat::FourBpp));

    let a = manager.add_tile(set, 0);
    assert_eq!(a.index(), 1);
    let b = manager.add_tile(set, 1);
    assert_eq!(b.index(), 2);
    let a_again = manager.add_tile(set, 0);
    assert_eq!(a_again.index(), 1);

    manager.remove_tile(a);
    manager.remove_tile(a_again);
    let c = manager.add_tile(set, 3);
    assert_eq!(c.index(), 1);
    manager.remove_tile(b);
    manager.remove_tile(c);
    manager.remove_tileset(set);
}

#[test]
fn tileset_slots_are_reused() {
    let data = [0u32; 32];
    let mut manager = VRamManager::new();
    let first = manager.add_tileset(TileSet::new(&data, TileFormat::FourBpp));
    let second = manager.add_tileset(TileSet::new(&data, TileFormat::FourBpp));
    manager.remove_tileset(first);
    let third = manager.add_tileset(TileSet::new(&data, TileFormat::FourBpp));
    let t = manager.add_tile(third, 2);
    assert_eq!(t.index(), 1);
    let u = manager.add_tile(second, 2);
    assert_eq!(u.index(), 2);
}

#[test]
fn raw_palette_goes_to_the_start() {
    let mut manager = VRamManager::new();
    manager.set_background_palette_raw(&[1, 2, 3]);
    assert_eq!(&manager.background_palette()[..4], &[1, 2, 3, 0]);
}

#[test]
fn palettes_go_to_their_banks() {
    let mut manager = VRamManager::new();
    let palettes = [
        Palette16 { colours: [7; 16] },
        Palette16 {
            colours: [
                0, 1, 2, 3, 4, 5, 6, 7, 8, 9, 10, 11, 12, 13, 14, 15,
            ],
        },
    ];
    manager.set_background_palettes(&palettes);
    let palette = manager.background_palette();
    assert_eq!(palette[0], 7);
    assert_eq!(palette[15], 7);
    assert_eq!(palette[16], 0);
    assert_eq!(palette[31], 15);
    assert_eq!(palette[32], 0);
}
