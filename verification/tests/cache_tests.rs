use viewtree::dpi::DpiScale;
use viewtree::image_cache::{Bitmap, Bmp, Cache};

fn scale(x: f32) -> DpiScale {
    DpiScale::new(x.to_bits()).unwrap()
}

fn bmp(id: u64, dpi: f32) -> Bmp {
    Bmp { bitmap: Bitmap { id }, actual_dpi_scale_bits: dpi.to_bits() }
}

#[test]
fn dpi_scales() {
    let mut cache = Cache::new();

    let scale1 = scale(1.0);
    let scale2 = scale(2.0);

    assert_eq!(cache.num_dpi_scales(), 0);
    assert!(cache.dpi_scale_find(scale1).is_none());
    assert!(cache.dpi_scale_find(scale2).is_none());

    cache.dpi_scale_add_ref(scale1);
    assert_eq!(cache.num_dpi_scales(), 1);
    assert!(cache.dpi_scale_find(scale1).is_some());
    assert!(cache.dpi_scale_find(scale2).is_none());

    cache.dpi_scale_add_ref(scale2);
    assert_eq!(cache.num_dpi_scales(), 2);
    assert!(cache.dpi_scale_find(scale1).is_some());
    assert!(cache.dpi_scale_find(scale2).is_some());

    cache.dpi_scale_add_ref(scale2);
    assert_eq!(cache.num_dpi_scales(), 2);
    assert!(cache.dpi_scale_find(scale1).is_some());
    assert!(cache.dpi_scale_find(scale2).is_some());

    cache.dpi_scale_release(scale1);
    assert_eq!(cache.num_dpi_scales(), 1);
    assert!(cache.dpi_scale_find(scale1).is_none());
    assert!(cache.dpi_scale_find(scale2).is_some());

    cache.dpi_scale_release(scale2);
    assert_eq!(cache.num_dpi_scales(), 1);
    assert!(cache.dpi_scale_find(scale1).is_none());
    assert!(cache.dpi_scale_find(scale2).is_some());

    cache.dpi_scale_release(scale2);
    assert_eq!(cache.num_dpi_scales(), 0);
    assert!(cache.dpi_scale_find(scale1).is_none());
    assert!(cache.dpi_scale_find(scale2).is_none());
}

#[test]
fn imgs() {
    let mut cache = Cache::new();

    let scale1 = scale(1.0);
    let scale2 = scale(2.0);

    let img_ptr = cache.img_add();
    assert!(cache.img_find_bmp(img_ptr, scale1).is_none());
    assert!(cache.img_find_bmp(img_ptr, scale2).is_none());

    cache.dpi_scale_add_ref(scale1);
    cache.dpi_scale_add_ref(scale2);
    let scale1ptr = cache.dpi_scale_find(scale1).unwrap();
    let scale2ptr = cache.dpi_scale_find(scale2).unwrap();

    cache.img_add_bmp(img_ptr, scale1ptr, bmp(1, 1.0));
    assert!(cache.img_find_bmp(img_ptr, scale1).is_some());
    assert!(cache.img_find_bmp(img_ptr, scale2).is_none());

    cache.img_add_bmp(img_ptr, scale2ptr, bmp(2, 2.0));
    assert!(cache.img_find_bmp(img_ptr, scale1).is_some());
    assert!(cache.img_find_bmp(img_ptr, scale2).is_some());

    assert_eq!(cache.num_bmps(), 2);

    cache.dpi_scale_release(scale2);

    assert!(cache.img_find_bmp(img_ptr, scale1).is_some());
    assert!(cache.img_find_bmp(img_ptr, scale2).is_none());

    assert_eq!(cache.num_bmps(), 1);
}

#[test]
fn lookup_and_commit_at_a_live_scale() {
    // a bitmap requested at a registered scale is cached: the second
    // lookup returns the same bitmap with no new rasterization, and a
    // lookup at an unregistered scale stays uncached
    let mut cache = Cache::new();
    let s2 = scale(2.0);
    let s3 = scale(3.0);
    cache.dpi_scale_add_ref(s2);

    let img_a = cache.img_add();

    // first request: miss, rasterize, commit
    assert!(cache.img_find_bmp(img_a, s2).is_none());
    let fresh = bmp(10, 2.0);
    let used = cache.commit_bmp(img_a, s2, fresh);
    assert_eq!(used, fresh);

    // second request: served from the cache, same bitmap instance
    let hit = cache.img_find_bmp(img_a, s2).unwrap();
    assert_eq!(hit, fresh);
    let hit_again = cache.img_find_bmp(img_a, s2).unwrap();
    assert_eq!(hit_again, hit);

    // a scale no window uses: rasterized, handed back, not cached
    assert!(cache.img_find_bmp(img_a, s3).is_none());
    let fresh3 = bmp(11, 3.0);
    let used3 = cache.commit_bmp(img_a, s3, fresh3);
    assert_eq!(used3, fresh3);
    assert!(cache.img_find_bmp(img_a, s3).is_none());
    assert_eq!(cache.num_bmps(), 1);
}

#[test]
fn commit_keeps_the_earlier_entry() {
    // if a re-entrant rasterization cached an entry first, the earlier
    // entry wins
    let mut cache = Cache::new();
    let s1 = scale(1.0);
    cache.dpi_scale_add_ref(s1);
    let img = cache.img_add();

    let first = bmp(1, 1.0);
    let second = bmp(2, 1.0);
    assert_eq!(cache.commit_bmp(img, s1, first), first);
    assert_eq!(cache.commit_bmp(img, s1, second), first);
    assert_eq!(cache.img_find_bmp(img, s1).unwrap(), first);
    assert_eq!(cache.num_bmps(), 1);
}

#[test]
fn scale_isolation() {
    // entries of one scale survive the removal of another scale
    let mut cache = Cache::new();
    let s1 = scale(1.0);
    let s2 = scale(2.0);
    cache.dpi_scale_add_ref(s1);
    cache.dpi_scale_add_ref(s2);
    let img = cache.img_add();
    let b1 = bmp(1, 1.0);
    let b2 = bmp(2, 2.0);
    cache.commit_bmp(img, s1, b1);
    cache.commit_bmp(img, s2, b2);

    assert_eq!(cache.img_find_bmp(img, s1).unwrap(), b1);
    assert_eq!(cache.img_find_bmp(img, s2).unwrap(), b2);

    cache.dpi_scale_release(s2);
    assert!(cache.img_find_bmp(img, s2).is_none());
    assert_eq!(cache.img_find_bmp(img, s1).unwrap(), b1);
}

#[test]
fn ref_counting_keeps_entries_until_the_last_release() {
    // registering a scale three times and releasing it twice keeps its
    // entries; the third release removes them
    let mut cache = Cache::new();
    let s = scale(1.5);
    cache.dpi_scale_add_ref(s);
    cache.dpi_scale_add_ref(s);
    cache.dpi_scale_add_ref(s);

    let img = cache.img_add();
    let b = bmp(7, 1.5);
    cache.commit_bmp(img, s, b);

    cache.dpi_scale_release(s);
    assert_eq!(cache.img_find_bmp(img, s).unwrap(), b);
    cache.dpi_scale_release(s);
    assert_eq!(cache.img_find_bmp(img, s).unwrap(), b);
    cache.dpi_scale_release(s);
    assert!(cache.img_find_bmp(img, s).is_none());
    assert_eq!(cache.num_bmps(), 0);
}

#[test]
fn img_remove_unlinks_both_sides() {
    // dropping an image removes its entries from every scale, leaving
    // other images' entries in place
    let mut cache = Cache::new();
    let s1 = scale(1.0);
    cache.dpi_scale_add_ref(s1);
    let img_a = cache.img_add();
    let img_b = cache.img_add();
    cache.commit_bmp(img_a, s1, bmp(1, 1.0));
    cache.commit_bmp(img_b, s1, bmp(2, 1.0));
    assert_eq!(cache.num_bmps(), 2);

    cache.img_remove(img_a);
    assert!(cache.img_find_bmp(img_b, s1).is_some());
    assert_eq!(cache.num_bmps(), 1);
}

#[test]
fn scale_change_keeps_a_shared_scale() {
    // a window moving between two scales held by other windows keeps
    // both scales' entries alive
    let mut cache = Cache::new();
    let s1 = scale(1.0);
    let s2 = scale(2.0);
    cache.dpi_scale_add_ref(s1);
    cache.dpi_scale_add_ref(s1);
    cache.dpi_scale_add_ref(s2);
    let img = cache.img_add();
    cache.commit_bmp(img, s1, bmp(1, 1.0));
    cache.commit_bmp(img, s2, bmp(2, 2.0));

    // one of the two windows at scale 1 moves to scale 2
    cache.dpi_scale_changed(s1, s2);
    assert!(cache.img_find_bmp(img, s1).is_some());
    assert!(cache.img_find_bmp(img, s2).is_some());

    // the remaining window at scale 1 moves too: scale 1 dies
    cache.dpi_scale_changed(s1, s2);
    assert!(cache.img_find_bmp(img, s1).is_none());
    assert!(cache.img_find_bmp(img, s2).is_some());
}
