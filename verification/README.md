# h0l0_img_host

A small image hosting service. `src/` is the verified library: API-key
hashing (SHA-512 over key and salt, rendered as hex), the key and
administrator checks, the rows of the `Users` and `Images` tables and the
lookups over them (uid of a key, the images of a key, the rows an account
clear removes, the login summary), and the helpers behind the statistics
endpoint. `app/main.rs` is the Rocket server: forms, routes, the SQLite
database, the image directory and the salt file.

Endpoints:

```
GET /api/stats - Statistics endpoint used to show data about the host
POST /api/usr/new - New account creation (can only be done by an admin)
POST /api/img - Gets all images for an account from the key provided
POST /api/upload - Use a multipart/form to upload an image
DELETE /api/delete - Delete a file
DELETE /api/nuke - Nukes all images off your account
```
